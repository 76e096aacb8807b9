//! What the rows of an answer tell, by key.

use vstd::prelude::*;
use crate::analysis::jank::JankCluster;
use crate::inspect::find::FoundNode;
use crate::inspect::names::{NameRow, StatRow};
use crate::inspect::stacks::{FunctionRow, StackRow};
use crate::inspect::task::TaskRow;
use crate::inspect::threads::ThreadRow;
use crate::inspect::timeline::Bucket;
use crate::json::JsonView;
use crate::laws::lists::lasted;
use crate::query::options::Options;
use crate::query::rows::{
    answer_json,
    args_json,
    bucket_json,
    call_row_json,
    child_json,
    children_list,
    cluster_json,
    delta_row_json,
    event_json,
    find_json,
    found_json,
    frames_json,
    function_json,
    given,
    group_json,
    long_tasks_json,
    metric_json,
    name_json,
    stack_json,
    stat_json,
    task_json,
    thread_json,
};
use crate::query::sections::Answer;
use crate::text::decimal;
use crate::trace::event::TraceEvent;
use crate::values::{count_json, mean_json, mean_us, rounded_us, time_json, whole_text};
use crate::windowed::calltree::CallRow;
use crate::windowed::delta::{DeltaRow, Unit};
use crate::windowed::frames::FrameStats;
use crate::windowed::gc::{GcGroup, GcReport};

verus! {

/// An object has the key with the value.
pub open spec fn tells(v: JsonView, key: Seq<char>, x: JsonView) -> bool {
    v matches JsonView::Obj(m) && m.contains((key, x))
}

/// A whole number, written with one decimal.
pub open spec fn written(us: int) -> Seq<char> {
    if us < 0 {
        "-"@ + decimal((-us) as nat) + ".0"@
    } else {
        decimal(us as nat) + ".0"@
    }
}

proof fn lemma_written(us: int)
    ensures
        whole_text(us) == written(us),
{
    reveal_strlit("-");
    reveal_strlit(".0");
    assert(whole_text(us) =~= written(us));
}

/// A time is told in microseconds, to the nearest.
pub proof fn lemma_time_told(ns: int) -> (us: int)
    ensures
        time_json(ns) == JsonView::Number(written(us)),
        1000 * us - 500 <= ns <= 1000 * us + 500,
{
    lemma_written(rounded_us(ns));
    rounded_us(ns)
}

/// A mean is told in microseconds, to the nearest.
pub proof fn lemma_mean_told(num: int, den: int) -> (us: int)
    requires
        den > 0,
    ensures
        mean_json(num, den) == JsonView::Number(written(us)),
        (1000 * us - 500) * den <= num <= (1000 * us + 500) * den,
{
    let us = mean_us(num, den);
    lemma_written(us);
    let k = 1000 * den;
    assert(k > 0);
    if num < 0 {
        let x = 500 * den - num;
        let q = x / k;
        assert(q * k <= x < q * k + k) by (nonlinear_arith)
            requires
                k > 0,
                q == x / k,
        ;
        assert(us == -q);
        assert((1000 * us - 500) * den == -(q * k) - 500 * den && (1000 * us + 500) * den == -(q * k) + 500
            * den) by (nonlinear_arith)
            requires
                us == -q,
                k == 1000 * den,
        ;
    } else {
        let x = num + 500 * den;
        let q = x / k;
        assert(q * k <= x < q * k + k) by (nonlinear_arith)
            requires
                k > 0,
                q == x / k,
        ;
        assert((1000 * us - 500) * den == q * k - 500 * den && (1000 * us + 500) * den == q * k + 500 * den)
            by (nonlinear_arith)
            requires
                us == q,
                k == 1000 * den,
        ;
    }
    us
}

/// The row of a name: the name, how many events have it, how long they last together and on average.
pub open spec fn name_told(v: JsonView, x: NameRow) -> bool {
    &&& tells(v, "name"@, JsonView::Str(x.name@))
    &&& tells(v, "count"@, count_json(x.count as nat))
    &&& tells(v, "total_us"@, time_json(x.total as int))
    &&& tells(v, "avg_us"@, mean_json(x.total as int, x.count as int))
}

proof fn lemma_name_told(x: NameRow)
    requires
        x.count > 0,
    ensures
        name_told(name_json(x), x),
{
    let m = name_json(x)->Obj_0;
    assert(m[2] == ("name"@, JsonView::Str(x.name@)));
    assert(m[1] == ("count"@, count_json(x.count as nat)));
    assert(m[3] == ("total_us"@, time_json(x.total as int)));
    assert(m[0] == ("avg_us"@, mean_json(x.total as int, x.count as int)));
}

/// The row on the durations of a name.
pub open spec fn stat_told(v: JsonView, x: StatRow) -> bool {
    &&& tells(v, "name"@, JsonView::Str(x.name@))
    &&& tells(v, "count"@, count_json(x.count as nat))
    &&& tells(v, "total_us"@, time_json(x.total as int))
    &&& tells(v, "avg_us"@, mean_json(x.total as int, x.count as int))
    &&& tells(v, "min_us"@, time_json(x.min as int))
    &&& tells(v, "p50_us"@, time_json(x.p50 as int))
    &&& tells(v, "p90_us"@, time_json(x.p90 as int))
    &&& tells(v, "p99_us"@, time_json(x.p99 as int))
    &&& tells(v, "max_us"@, time_json(x.max as int))
}

proof fn lemma_stat_told(x: StatRow)
    requires
        x.count > 0,
    ensures
        stat_told(stat_json(x), x),
{
    let m = stat_json(x)->Obj_0;
    assert(m[4] == ("name"@, JsonView::Str(x.name@)));
    assert(m[1] == ("count"@, count_json(x.count as nat)));
    assert(m[8] == ("total_us"@, time_json(x.total as int)));
    assert(m[0] == ("avg_us"@, mean_json(x.total as int, x.count as int)));
    assert(m[3] == ("min_us"@, time_json(x.min as int)));
    assert(m[5] == ("p50_us"@, time_json(x.p50 as int)));
    assert(m[6] == ("p90_us"@, time_json(x.p90 as int)));
    assert(m[7] == ("p99_us"@, time_json(x.p99 as int)));
    assert(m[2] == ("max_us"@, time_json(x.max as int)));
}

/// The row of a thread.
pub open spec fn thread_told(v: JsonView, x: ThreadRow) -> bool {
    &&& tells(v, "tid"@, count_json(x.tid as nat))
    &&& tells(v, "events"@, count_json(x.events as nat))
    &&& tells(v, "runtask_us"@, time_json(x.run as int))
    &&& tells(v, "top_event"@, JsonView::Str(x.top_event@))
}

proof fn lemma_thread_told(x: ThreadRow)
    ensures
        thread_told(thread_json(x), x),
{
    let m = thread_json(x)->Obj_0;
    assert(m[2] == ("tid"@, count_json(x.tid as nat)));
    assert(m[0] == ("events"@, count_json(x.events as nat)));
    assert(m[1] == ("runtask_us"@, time_json(x.run as int)));
    assert(m[3] == ("top_event"@, JsonView::Str(x.top_event@)));
}

/// The row of an event; its time is since the start.
pub open spec fn event_told(v: JsonView, x: TraceEvent, min_ts: i64) -> bool {
    &&& tells(v, "name"@, JsonView::Str(x.name@))
    &&& tells(v, "tid"@, count_json(x.tid as nat))
    &&& tells(v, "pid"@, count_json(x.pid as nat))
    &&& tells(v, "t_us"@, time_json(x.ts - min_ts))
    &&& tells(v, "dur_us"@, time_json(lasted(x)))
}

proof fn lemma_event_told(x: TraceEvent, min_ts: i64)
    ensures
        event_told(event_json(x, min_ts), x, min_ts),
{
    let m = event_json(x, min_ts)->Obj_0;
    assert(m[2] == ("name"@, JsonView::Str(x.name@)));
    assert(m[5] == ("tid"@, count_json(x.tid as nat)));
    assert(m[3] == ("pid"@, count_json(x.pid as nat)));
    assert(m[4] == ("t_us"@, time_json(x.ts - min_ts)));
    assert(m[1] == ("dur_us"@, time_json(lasted(x))));
}

/// The row of an event that was found.
pub open spec fn find_told(v: JsonView, x: TraceEvent, min_ts: i64) -> bool {
    &&& tells(v, "name"@, JsonView::Str(x.name@))
    &&& tells(v, "tid"@, count_json(x.tid as nat))
    &&& tells(v, "t_us"@, time_json(x.ts - min_ts))
    &&& tells(v, "dur_us"@, time_json(lasted(x)))
}

proof fn lemma_find_told(x: TraceEvent, min_ts: i64)
    ensures
        find_told(find_json(x, min_ts), x, min_ts),
{
    let m = find_json(x, min_ts)->Obj_0;
    assert(m[2] == ("name"@, JsonView::Str(x.name@)));
    assert(m[4] == ("tid"@, count_json(x.tid as nat)));
    assert(m[3] == ("t_us"@, time_json(x.ts - min_ts)));
    assert(m[1] == ("dur_us"@, time_json(lasted(x))));
}

/// The row of a node that was found.
pub open spec fn node_told(v: JsonView, x: FoundNode) -> bool {
    &&& tells(v, "function"@, JsonView::Str(x.function@))
    &&& tells(v, "url"@, JsonView::Str(x.url@))
    &&& tells(v, "self_us"@, time_json(x.time as int))
}

proof fn lemma_node_told(x: FoundNode)
    ensures
        node_told(found_json(x), x),
{
    let m = found_json(x)->Obj_0;
    assert(m[0] == ("function"@, JsonView::Str(x.function@)));
    assert(m[2] == ("url"@, JsonView::Str(x.url@)));
    assert(m[1] == ("self_us"@, time_json(x.time as int)));
}

/// The row of what a task consists of.
pub open spec fn child_told(v: JsonView, x: NameRow) -> bool {
    &&& tells(v, "name"@, JsonView::Str(x.name@))
    &&& tells(v, "count"@, count_json(x.count as nat))
    &&& tells(v, "total_us"@, time_json(x.total as int))
}

proof fn lemma_child_told(x: NameRow)
    ensures
        child_told(child_json(x), x),
{
    let m = child_json(x)->Obj_0;
    assert(m[1] == ("name"@, JsonView::Str(x.name@)));
    assert(m[0] == ("count"@, count_json(x.count as nat)));
    assert(m[2] == ("total_us"@, time_json(x.total as int)));
}

/// The row of a task, with its place from one on.
pub open spec fn task_told(v: JsonView, x: TaskRow, e: TraceEvent, i: int, min_ts: i64) -> bool {
    &&& tells(v, "rank"@, count_json((i + 1) as nat))
    &&& tells(v, "t_us"@, time_json(e.ts - min_ts))
    &&& tells(v, "dur_us"@, time_json(lasted(e)))
    &&& tells(v, "tid"@, count_json(e.tid as nat))
}

proof fn lemma_task_told(x: TaskRow, e: TraceEvent, i: int, min_ts: i64)
    requires
        i >= 0,
    ensures
        task_told(task_json(x, e, i, min_ts), x, e, i, min_ts),
{
    let m = task_json(x, e, i, min_ts)->Obj_0;
    assert(m[2] == ("rank"@, count_json((i + 1) as nat)));
    assert(m[3] == ("t_us"@, time_json(e.ts - min_ts)));
    assert(m[1] == ("dur_us"@, time_json(lasted(e))));
    assert(m[4] == ("tid"@, count_json(e.tid as nat)));
}

/// The row of a function.
pub open spec fn function_told(v: JsonView, x: FunctionRow, share: JsonView) -> bool {
    &&& tells(v, "function"@, JsonView::Str(x.function@))
    &&& tells(v, "url"@, JsonView::Str(x.url@))
    &&& tells(v, "self_us"@, time_json(x.time as int))
    &&& tells(v, "pct"@, share)
}

proof fn lemma_function_told(x: FunctionRow, share: JsonView)
    ensures
        function_told(function_json(x, share), x, share),
{
    let m = function_json(x, share)->Obj_0;
    assert(m[0] == ("function"@, JsonView::Str(x.function@)));
    assert(m[3] == ("url"@, JsonView::Str(x.url@)));
    assert(m[2] == ("self_us"@, time_json(x.time as int)));
    assert(m[1] == ("pct"@, share));
}

/// The row of a stack, with its place from one on.
pub open spec fn stack_told(v: JsonView, x: StackRow, i: int, share: JsonView) -> bool {
    &&& tells(v, "rank"@, count_json((i + 1) as nat))
    &&& tells(v, "leaf"@, JsonView::Str(x.leaf@))
    &&& tells(v, "leaf_url"@, JsonView::Str(x.file@))
    &&& tells(v, "depth"@, count_json(x.stack@.len() as nat))
    &&& tells(v, "self_us"@, time_json(x.time as int))
    &&& tells(v, "pct"@, share)
}

proof fn lemma_stack_told(x: StackRow, i: int, share: JsonView)
    requires
        i >= 0,
    ensures
        stack_told(stack_json(x, i, share), x, i, share),
{
    let m = stack_json(x, i, share)->Obj_0;
    assert(m[4] == ("rank"@, count_json((i + 1) as nat)));
    assert(m[1] == ("leaf"@, JsonView::Str(x.leaf@)));
    assert(m[2] == ("leaf_url"@, JsonView::Str(x.file@)));
    assert(m[0] == ("depth"@, count_json(x.stack@.len() as nat)));
    assert(m[5] == ("self_us"@, time_json(x.time as int)));
    assert(m[3] == ("pct"@, share));
}

/// The row of a call.
pub open spec fn call_told(v: JsonView, x: CallRow, share: JsonView) -> bool {
    &&& tells(v, "depth"@, count_json(x.depth as nat))
    &&& tells(v, "function"@, JsonView::Str(x.function@))
    &&& tells(v, "url"@, JsonView::Str(x.url@))
    &&& tells(v, "self_us"@, time_json(x.own as int))
    &&& tells(v, "inclusive_us"@, time_json(x.inclusive as int))
    &&& tells(v, "pct"@, share)
}

proof fn lemma_call_told(x: CallRow, share: JsonView)
    ensures
        call_told(call_row_json(x, share), x, share),
{
    let m = call_row_json(x, share)->Obj_0;
    assert(m[0] == ("depth"@, count_json(x.depth as nat)));
    assert(m[1] == ("function"@, JsonView::Str(x.function@)));
    assert(m[5] == ("url"@, JsonView::Str(x.url@)));
    assert(m[4] == ("self_us"@, time_json(x.own as int)));
    assert(m[2] == ("inclusive_us"@, time_json(x.inclusive as int)));
    assert(m[3] == ("pct"@, share));
}

/// The row of a stretch of the timeline.
pub open spec fn bucket_told(v: JsonView, x: Bucket, i: int, start: int, width: int, share: JsonView) -> bool {
    &&& tells(v, "bucket"@, count_json(i as nat))
    &&& tells(v, "t_us"@, time_json(start + i * width))
    &&& tells(v, "runtask_us"@, time_json(x.run as int))
    &&& tells(v, "events"@, count_json(x.events as nat))
    &&& tells(v, "busy"@, share)
}

proof fn lemma_bucket_told(x: Bucket, i: int, start: int, width: int, share: JsonView)
    requires
        i >= 0,
    ensures
        bucket_told(bucket_json(x, i, start, width, share), x, i, start, width, share),
{
    let m = bucket_json(x, i, start, width, share)->Obj_0;
    assert(m[0] == ("bucket"@, count_json(i as nat)));
    assert(m[4] == ("t_us"@, time_json(start + i * width)));
    assert(m[3] == ("runtask_us"@, time_json(x.run as int)));
    assert(m[2] == ("events"@, count_json(x.events as nat)));
    assert(m[1] == ("busy"@, share));
}

/// The row of a group of collections.
pub open spec fn group_told(v: JsonView, x: GcGroup, group: Seq<char>) -> bool {
    &&& tells(v, "group"@, JsonView::Str(group))
    &&& tells(v, "count"@, count_json(x.count as nat))
    &&& tells(v, "total_us"@, time_json(x.total as int))
    &&& tells(v, "max_us"@, time_json(x.max as int))
}

proof fn lemma_group_told(x: GcGroup, group: Seq<char>, g: int)
    requires
        group == (if g == 0 {
            "MajorGC"@
        } else if g == 1 {
            "MinorGC / GCScavenger"@
        } else {
            "other V8.GC*/CppGC*"@
        }),
    ensures
        group_told(group_json(x, g), x, group),
{
    let m = group_json(x, g)->Obj_0;
    assert(m[1] == ("group"@, JsonView::Str(group)));
    assert(m[0] == ("count"@, count_json(x.count as nat)));
    assert(m[3] == ("total_us"@, time_json(x.total as int)));
    assert(m[2] == ("max_us"@, time_json(x.max as int)));
}

/// The row of a stretch of jank.
pub open spec fn cluster_told(v: JsonView, x: JankCluster) -> bool {
    &&& tells(v, "start_us"@, mean_json(x.start.num as int, x.start.den as int))
    &&& tells(v, "end_us"@, mean_json(x.end.num as int, x.end.den as int))
    &&& tells(v, "busy_us"@, time_json(x.busy as int))
    &&& tells(v, "max_run_us"@, time_json(x.max_run as int))
    &&& tells(v, "dropped_frames"@, count_json(x.dropped_frames as nat))
}

proof fn lemma_cluster_told(x: JankCluster)
    ensures
        cluster_told(cluster_json(x), x),
{
    let m = cluster_json(x)->Obj_0;
    assert(m[4] == ("start_us"@, mean_json(x.start.num as int, x.start.den as int)));
    assert(m[2] == ("end_us"@, mean_json(x.end.num as int, x.end.den as int)));
    assert(m[0] == ("busy_us"@, time_json(x.busy as int)));
    assert(m[3] == ("max_run_us"@, time_json(x.max_run as int)));
    assert(m[1] == ("dropped_frames"@, count_json(x.dropped_frames as nat)));
}

/// The row of the frames.
pub open spec fn frames_told(v: JsonView, x: FrameStats, name: Seq<char>) -> bool {
    &&& tells(v, "frame_event"@, JsonView::Str(name))
    &&& tells(v, "count"@, count_json(x.spread.count as nat))
    &&& tells(v, "dropped_frames"@, count_json(x.dropped as nat))
    &&& tells(v, "p50_us"@, time_json(x.spread.p50 as int))
    &&& tells(v, "p90_us"@, time_json(x.spread.p90 as int))
    &&& tells(v, "p99_us"@, time_json(x.spread.p99 as int))
    &&& tells(v, "max_us"@, time_json(x.spread.max as int))
}

proof fn lemma_frames_told(x: FrameStats, name: Seq<char>)
    ensures
        frames_told(frames_json(x, name), x, name),
{
    let m = frames_json(x, name)->Obj_0;
    assert(m[3] == ("frame_event"@, JsonView::Str(name)));
    assert(m[1] == ("count"@, count_json(x.spread.count as nat)));
    assert(m[2] == ("dropped_frames"@, count_json(x.dropped as nat)));
    assert(m[5] == ("p50_us"@, time_json(x.spread.p50 as int)));
    assert(m[6] == ("p90_us"@, time_json(x.spread.p90 as int)));
    assert(m[7] == ("p99_us"@, time_json(x.spread.p99 as int)));
    assert(m[4] == ("max_us"@, time_json(x.spread.max as int)));
}

/// The row of a figure: before, at and after the anchor, and what it changed by from each to the next.
pub open spec fn delta_told(v: JsonView, x: DeltaRow) -> bool {
    &&& tells(v, "metric"@, JsonView::Str(x.metric@))
    &&& tells(v, "pre"@, metric_json(x.unit, x.pre as int))
    &&& tells(v, "shoot"@, metric_json(x.unit, x.shoot as int))
    &&& tells(v, "post"@, metric_json(x.unit, x.post as int))
    &&& tells(v, "delta_pre"@, metric_json(x.unit, x.shoot - x.pre))
    &&& tells(v, "delta_post"@, metric_json(x.unit, x.post - x.shoot))
}

proof fn lemma_delta_told(x: DeltaRow)
    ensures
        delta_told(delta_row_json(x), x),
{
    let m = delta_row_json(x)->Obj_0;
    assert(m[2] == ("metric"@, JsonView::Str(x.metric@)));
    assert(m[4] == ("pre"@, metric_json(x.unit, x.pre as int)));
    assert(m[5] == ("shoot"@, metric_json(x.unit, x.shoot as int)));
    assert(m[3] == ("post"@, metric_json(x.unit, x.post as int)));
    assert(m[1] == ("delta_pre"@, metric_json(x.unit, x.shoot - x.pre)));
    assert(m[0] == ("delta_post"@, metric_json(x.unit, x.post - x.shoot)));
}

/// What is told of the long tasks.
pub open spec fn long_told(v: JsonView, x: GcReport, limit: i64) -> bool {
    &&& tells(v, "count"@, count_json(x.long_tasks@.len() as nat))
    &&& tells(v, "threshold_us"@, time_json(limit as int))
    &&& tells(v, "total_us"@, time_json(x.long_total as int))
}

proof fn lemma_long_told(x: GcReport, limit: i64)
    ensures
        long_told(long_tasks_json(x, limit), x, limit),
{
    let m = long_tasks_json(x, limit)->Obj_0;
    assert(m[0] == ("count"@, count_json(x.long_tasks@.len() as nat)));
    assert(m[2] == ("threshold_us"@, time_json(limit as int)));
    assert(m[4] == ("total_us"@, time_json(x.long_total as int)));
}
/// How many rows are told, where no more than `top` are asked for.
pub open spec fn at_most(n: nat, top: usize) -> nat {
    if n < top {
        n
    } else {
        top as nat
    }
}

/// The rows of lists that are cut to what is asked for.
pub proof fn lemma_listed(events: Seq<TraceEvent>, min_ts: i64, o: Options, a: Answer, shares: Seq<String>)
    requires
        a matches Answer::Names(rows) ==> forall|k: int| 0 <= k < rows@.len() ==> (#[trigger] rows@[k]).count > 0,
    ensures
        a matches Answer::Names(rows) ==> {
            let list = answer_json(events, min_ts, o, a, shares)->Arr_0;
            &&& list.len() == at_most(rows@.len(), o.top)
            &&& forall|k: int| 0 <= k < list.len() ==> name_told(#[trigger] list[k], rows@[k])
        },
        a matches Answer::Threads(rows) ==> {
            let list = answer_json(events, min_ts, o, a, shares)->Arr_0;
            &&& list.len() == at_most(rows@.len(), o.top)
            &&& forall|k: int| 0 <= k < list.len() ==> thread_told(#[trigger] list[k], rows@[k])
        },
        a matches Answer::Events(q) ==> {
            let list = answer_json(events, min_ts, o, a, shares)->Arr_0;
            &&& list.len() == at_most(q@.len(), o.top)
            &&& forall|k: int|
                0 <= k < list.len() ==> event_told(#[trigger] list[k], events[q@[k] as int], min_ts) && tells(
                    list[k],
                    "args"@,
                    match events[q@[k] as int]@.said() {
                        Some(v) => v,
                        None => JsonView::Null,
                    },
                )
        },
        a matches Answer::Functions(l) ==> {
            let list = answer_json(events, min_ts, o, a, shares)->Arr_0;
            &&& list.len() == at_most(l.rows@.len(), o.top)
            &&& forall|k: int|
                0 <= k < list.len() ==> function_told(
                    #[trigger] list[k],
                    l.rows@[k],
                    JsonView::Number(shares[k]@),
                )
        },
        a matches Answer::Jank(j) ==> {
            let list = answer_json(events, min_ts, o, a, shares)->Arr_0;
            &&& list.len() == at_most(j.clusters@.len(), o.top)
            &&& forall|k: int| 0 <= k < list.len() ==> cluster_told(#[trigger] list[k], j.clusters@[k])
        },
{
    let v = answer_json(events, min_ts, o, a, shares);
    let list = v->Arr_0;
    match a {
        Answer::Names(rows) => {
            assert forall|k: int| 0 <= k < list.len() implies name_told(#[trigger] list[k], rows@[k]) by {
                lemma_name_told(rows@[k]);
            }
        },
        Answer::Threads(rows) => {
            assert forall|k: int| 0 <= k < list.len() implies thread_told(#[trigger] list[k], rows@[k]) by {
                lemma_thread_told(rows@[k]);
            }
        },
        Answer::Events(q) => {
            assert forall|k: int| 0 <= k < list.len() implies event_told(
                #[trigger] list[k],
                events[q@[k] as int],
                min_ts,
            ) && tells(
                list[k],
                "args"@,
                match events[q@[k] as int]@.said() {
                    Some(v) => v,
                    None => JsonView::Null,
                },
            ) by {
                let e = events[q@[k] as int];
                lemma_event_told(e, min_ts);
                assert((event_json(e, min_ts)->Obj_0)[0] == ("args"@, args_json(e)));
            }
        },
        Answer::Functions(l) => {
            assert forall|k: int| 0 <= k < list.len() implies function_told(
                #[trigger] list[k],
                l.rows@[k],
                JsonView::Number(shares[k]@),
            ) by {
                lemma_function_told(l.rows@[k], given(shares, k));
            }
        },
        Answer::Jank(j) => {
            assert forall|k: int| 0 <= k < list.len() implies cluster_told(#[trigger] list[k], j.clusters@[k]) by {
                lemma_cluster_told(j.clusters@[k]);
            }
        },
        _ => {},
    }
}

/// The rows of lists that are told whole.
pub proof fn lemma_told_whole(events: Seq<TraceEvent>, min_ts: i64, o: Options, a: Answer, shares: Seq<String>)
    requires
        a matches Answer::Stats(rows) ==> forall|k: int| 0 <= k < rows@.len() ==> (#[trigger] rows@[k]).count > 0,
    ensures
        a matches Answer::Stats(rows) ==> {
            let list = answer_json(events, min_ts, o, a, shares)->Arr_0;
            &&& list.len() == rows@.len()
            &&& forall|k: int| 0 <= k < list.len() ==> stat_told(#[trigger] list[k], rows@[k])
        },
        a matches Answer::Task(rows) ==> {
            let list = answer_json(events, min_ts, o, a, shares)->Arr_0;
            &&& list.len() == rows@.len()
            &&& forall|k: int|
                0 <= k < list.len() ==> task_told(
                    #[trigger] list[k],
                    rows@[k],
                    events[rows@[k].at as int],
                    k,
                    min_ts,
                ) && parts_told(list[k], rows@[k])
        },
        a matches Answer::Stacks(l) ==> {
            let list = answer_json(events, min_ts, o, a, shares)->Arr_0;
            &&& list.len() == l.rows@.len()
            &&& forall|k: int|
                0 <= k < list.len() ==> stack_told(
                    #[trigger] list[k],
                    l.rows@[k],
                    k,
                    JsonView::Number(shares[k]@),
                )
        },
        a matches Answer::CallTree(rows, _) ==> {
            let list = answer_json(events, min_ts, o, a, shares)->Arr_0;
            &&& list.len() == rows@.len()
            &&& forall|k: int|
                0 <= k < list.len() ==> call_told(#[trigger] list[k], rows@[k], JsonView::Number(shares[k]@))
        },
        a matches Answer::Timeline(x) ==> {
            let list = answer_json(events, min_ts, o, a, shares)->Arr_0;
            &&& x.plan is None ==> list.len() == 0
            &&& x.plan matches Some(p) ==> list.len() == x.rows@.len() && forall|k: int|
                0 <= k < list.len() ==> bucket_told(
                    #[trigger] list[k],
                    x.rows@[k],
                    k,
                    p.start - min_ts,
                    p.bucket as int,
                    JsonView::Number(shares[k]@),
                )
        },
        a matches Answer::Frames(f) ==> {
            let list = answer_json(events, min_ts, o, a, shares)->Arr_0;
            &&& list.len() == 1
            &&& frames_told(list[0], f, o.frame_event@)
        },
{
    let v = answer_json(events, min_ts, o, a, shares);
    let list = v->Arr_0;
    match a {
        Answer::Stats(rows) => {
            assert forall|k: int| 0 <= k < list.len() implies stat_told(#[trigger] list[k], rows@[k]) by {
                lemma_stat_told(rows@[k]);
            }
        },
        Answer::Task(rows) => {
            assert forall|k: int| 0 <= k < list.len() implies task_told(
                #[trigger] list[k],
                rows@[k],
                events[rows@[k].at as int],
                k,
                min_ts,
            ) && parts_told(list[k], rows@[k]) by {
                lemma_task_told(rows@[k], events[rows@[k].at as int], k, min_ts);
                lemma_parts_told(rows@[k], events[rows@[k].at as int], k, min_ts);
            }
        },
        Answer::Stacks(l) => {
            assert forall|k: int| 0 <= k < list.len() implies stack_told(
                #[trigger] list[k],
                l.rows@[k],
                k,
                JsonView::Number(shares[k]@),
            ) by {
                lemma_stack_told(l.rows@[k], k, given(shares, k));
            }
        },
        Answer::CallTree(rows, _) => {
            assert forall|k: int| 0 <= k < list.len() implies call_told(
                #[trigger] list[k],
                rows@[k],
                JsonView::Number(shares[k]@),
            ) by {
                lemma_call_told(rows@[k], given(shares, k));
            }
        },
        Answer::Timeline(x) => {
            if let Some(p) = x.plan {
                assert forall|k: int| 0 <= k < list.len() implies bucket_told(
                    #[trigger] list[k],
                    x.rows@[k],
                    k,
                    p.start - min_ts,
                    p.bucket as int,
                    JsonView::Number(shares[k]@),
                ) by {
                    lemma_bucket_told(x.rows@[k], k, p.start - min_ts, p.bucket as int, given(shares, k));
                }
            }
        },
        Answer::Frames(f) => {
            lemma_frames_told(f, o.frame_event@);
        },
        _ => {},
    }
}

/// What a task consists of, and its longest call, in its row.
pub open spec fn parts_told(v: JsonView, x: TaskRow) -> bool {
    &&& exists|list: Seq<JsonView>|
        {
            &&& #[trigger] tells(v, "children"@, JsonView::Arr(list))
            &&& list.len() == x.children@.len()
            &&& forall|i: int| 0 <= i < list.len() ==> child_told(#[trigger] list[i], x.children@[i])
        }
    &&& x.top_call is None ==> tells(v, "top_function_call"@, JsonView::Null)
    &&& x.top_call matches Some(c) ==> exists|call: JsonView|
        {
            &&& #[trigger] tells(v, "top_function_call"@, call)
            &&& tells(call, "dur_us"@, time_json(c.1 as int))
            &&& c.0@.len() > 0 ==> tells(call, "name"@, JsonView::Str(c.0@))
        }
}

proof fn lemma_parts_told(x: TaskRow, e: TraceEvent, i: int, min_ts: i64)
    ensures
        parts_told(task_json(x, e, i, min_ts), x),
{
    let v = task_json(x, e, i, min_ts);
    let m = v->Obj_0;
    let list = children_list(x.children@);
    assert(m[0] == ("children"@, JsonView::Arr(list)));
    assert(tells(v, "children"@, JsonView::Arr(list)));
    assert forall|j: int| 0 <= j < list.len() implies child_told(#[trigger] list[j], x.children@[j]) by {
        lemma_child_told(x.children@[j]);
    }
    let call = m[5].1;
    assert(m[5] == ("top_function_call"@, call));
    assert(tells(v, "top_function_call"@, call));
    if let Some(c) = x.top_call {
        let n = call->Obj_0;
        assert(n[0] == ("dur_us"@, time_json(c.1 as int)));
        if c.0@.len() > 0 {
            assert(n[1] == ("name"@, JsonView::Str(c.0@)));
        }
    }
}

/// The answers that are objects, and the report on collections.
pub proof fn lemma_objects(events: Seq<TraceEvent>, min_ts: i64, o: Options, a: Answer, shares: Seq<String>)
    ensures
        a matches Answer::Find(f) ==> exists|found: Seq<JsonView>, nodes: Seq<JsonView>|
            {
                &&& #[trigger] tells(answer_json(events, min_ts, o, a, shares), "events"@, JsonView::Arr(found))
                &&& #[trigger] tells(answer_json(events, min_ts, o, a, shares), "cpu_profile"@, JsonView::Arr(nodes))
                &&& found.len() == at_most(f.events@.len(), o.top)
                &&& nodes.len() == at_most(f.nodes@.len(), o.top)
                &&& forall|k: int|
                    0 <= k < found.len() ==> find_told(
                        #[trigger] found[k],
                        events[f.events@[k].at as int],
                        min_ts,
                    )
                &&& forall|k: int| 0 <= k < nodes.len() ==> node_told(#[trigger] nodes[k], f.nodes@[k])
            },
        a matches Answer::Delta(d) ==> exists|rows: Seq<JsonView>|
            {
                &&& #[trigger] tells(answer_json(events, min_ts, o, a, shares), "metrics"@, JsonView::Arr(rows))
                &&& tells(answer_json(events, min_ts, o, a, shares), "anchor_us"@, time_json(d.anchor as int))
                &&& rows.len() == d.rows@.len()
                &&& forall|k: int| 0 <= k < rows.len() ==> delta_told(#[trigger] rows[k], d.rows@[k])
            },
        a matches Answer::Gc(r) ==> exists|v: JsonView, groups: Seq<JsonView>, long: JsonView|
            {
                &&& answer_json(events, min_ts, o, a, shares) == JsonView::Arr(seq![v])
                &&& #[trigger] tells(v, "gc"@, JsonView::Arr(groups))
                &&& #[trigger] tells(v, "long_tasks"@, long)
                &&& groups.len() == r.groups@.len()
                &&& groups.len() > 0 ==> group_told(groups[0], r.groups@[0], "MajorGC"@)
                &&& groups.len() > 1 ==> group_told(groups[1], r.groups@[1], "MinorGC / GCScavenger"@)
                &&& groups.len() > 2 ==> group_told(groups[2], r.groups@[2], "other V8.GC*/CppGC*"@)
                &&& long_told(long, r, o.lt)
            },
        a is NoAnchor ==> answer_json(events, min_ts, o, a, shares) is Null,
{
    let v = answer_json(events, min_ts, o, a, shares);
    match a {
        Answer::Find(f) => {
            let m = v->Obj_0;
            let nodes = m[0].1->Arr_0;
            let found = m[1].1->Arr_0;
            assert(m[0] == ("cpu_profile"@, JsonView::Arr(nodes)));
            assert(m[1] == ("events"@, JsonView::Arr(found)));
            assert(tells(v, "events"@, JsonView::Arr(found)));
            assert(tells(v, "cpu_profile"@, JsonView::Arr(nodes)));
            assert forall|k: int| 0 <= k < found.len() implies find_told(
                #[trigger] found[k],
                events[f.events@[k].at as int],
                min_ts,
            ) by {
                lemma_find_told(events[f.events@[k].at as int], min_ts);
            }
            assert forall|k: int| 0 <= k < nodes.len() implies node_told(#[trigger] nodes[k], f.nodes@[k]) by {
                lemma_node_told(f.nodes@[k]);
            }
        },
        Answer::Delta(d) => {
            let m = v->Obj_0;
            let rows = m[1].1->Arr_0;
            assert(m[0] == ("anchor_us"@, time_json(d.anchor as int)));
            assert(m[1] == ("metrics"@, JsonView::Arr(rows)));
            assert(tells(v, "metrics"@, JsonView::Arr(rows)));
            assert forall|k: int| 0 <= k < rows.len() implies delta_told(#[trigger] rows[k], d.rows@[k]) by {
                lemma_delta_told(d.rows@[k]);
            }
        },
        Answer::Gc(r) => {
            let w = (v->Arr_0)[0];
            let m = w->Obj_0;
            let groups = m[0].1->Arr_0;
            let long = m[1].1;
            assert(m[0] == ("gc"@, JsonView::Arr(groups)));
            assert(m[1] == ("long_tasks"@, long));
            assert(tells(w, "gc"@, JsonView::Arr(groups)));
            assert(tells(w, "long_tasks"@, long));
            if groups.len() > 0 {
                lemma_group_told(r.groups@[0], "MajorGC"@, 0);
            }
            if groups.len() > 1 {
                lemma_group_told(r.groups@[1], "MinorGC / GCScavenger"@, 1);
            }
            if groups.len() > 2 {
                lemma_group_told(r.groups@[2], "other V8.GC*/CppGC*"@, 2);
            }
            lemma_long_told(r, o.lt);
            assert(answer_json(events, min_ts, o, a, shares) == JsonView::Arr(seq![w]));
        },
        _ => {},
    }
}

/// A figure is told as it is where it is a count, and in milliseconds to the
/// nearest tenth where it is a time.
pub proof fn lemma_figure_told(v: int) -> (tenths: int)
    ensures
        metric_json(Unit::Count, v) == JsonView::Number(written(v)),
        metric_json(Unit::Time, v) == JsonView::Number(crate::values::milli_text(100 * tenths)),
        100_000 * tenths - 50_000 <= v <= 100_000 * tenths + 50_000,
{
    lemma_written(v);
    crate::query::rows::tenths_ms(v)
}

} // verus!
