//! Answers as JSON, with their members in the order of their names: times in
//! whole microseconds, counts as they are. Shares are handed in as texts.

use vstd::prelude::*;
use crate::analysis::jank::JankCluster;
use crate::inspect::find::{FindRow, Found, FoundNode};
use crate::inspect::names::{NameRow, StatRow};
use crate::inspect::stacks::{FunctionRow, StackRow};
use crate::inspect::task::TaskRow;
use crate::inspect::threads::ThreadRow;
use crate::inspect::timeline::{Bucket, Plan};
use crate::json::{json_views, Json, JsonView};
use crate::query::options::Options;
use crate::query::pair::{unit_name, unit_text, windows_json, windows_value};
use crate::query::sections::Answer;
use crate::trace::event::TraceEvent;
use crate::values::{
    array,
    copy_json,
    count_json,
    count_value,
    mean_json,
    mean_value,
    members_of,
    milli,
    milli_text,
    no_members,
    object,
    put_member,
    text_value,
    time_json,
    time_value,
    whole,
    whole_text,
};
use crate::windowed::calltree::{shown_name, CallRow};
use crate::windowed::delta::{rows_fit, DeltaData, DeltaRow, NamedTime, Unit};
use crate::windowed::frames::FrameStats;
use crate::windowed::gc::{gc_group_name, group_name, GcGroup, GcReport};

verus! {

/// The longest step and the farthest start of a timeline that is told.
pub const STEP_BOUND: i128 = 0x1000_0000_0000_0000;

pub const START_BOUND: i128 = 0x1000_0000_0000_0000_0000_0000;

/// How many long tasks are told.
pub const TOP_TASKS: usize = 3;

/// The places are those of events.
pub open spec fn places_at(rows: Seq<usize>, len: nat) -> bool {
    forall|k: int| 0 <= k < rows.len() ==> (#[trigger] rows[k]) < len
}

pub open spec fn tasks_at(rows: Seq<TaskRow>, len: nat) -> bool {
    forall|k: int| 0 <= k < rows.len() ==> (#[trigger] rows[k]).at < len
}

pub open spec fn finds_at(rows: Seq<FindRow>, len: nat) -> bool {
    forall|k: int| 0 <= k < rows.len() ==> (#[trigger] rows[k]).at < len
}

/// How many of `len` rows are shown.
pub open spec fn shown(len: nat, top: usize) -> nat {
    if len < top {
        len
    } else {
        top as nat
    }
}

/// A number that is handed in as text.
pub open spec fn given(texts: Seq<String>, i: int) -> JsonView {
    JsonView::Number(texts[i]@)
}

/// The average of a time over a count.
pub open spec fn average_json(total: i128, count: usize) -> JsonView {
    mean_json(
        total as int,
        if count > 0 {
            count as int
        } else {
            1
        },
    )
}

fn average_value(total: i128, count: usize) -> (r: Json)
    ensures
        r@ == average_json(total, count),
{
    if count > 0 {
        mean_value(total, count as i128)
    } else {
        mean_value(total, 1)
    }
}

/// A time from the start of the trace.
pub open spec fn since_json(ts: i64, min_ts: i64) -> JsonView {
    time_json(ts - min_ts)
}

fn since_value(ts: i64, min_ts: i64) -> (r: Json)
    ensures
        r@ == since_json(ts, min_ts),
{
    time_value(ts as i128 - min_ts as i128)
}

/// How long an event takes.
pub open spec fn lasting_json(e: TraceEvent) -> JsonView {
    time_json(
        match e.dur {
            Some(d) => d as int,
            None => 0,
        },
    )
}

fn lasting_value(e: &TraceEvent) -> (r: Json)
    ensures
        r@ == lasting_json(*e),
{
    match e.dur {
        Some(d) => time_value(d as i128),
        None => time_value(0),
    }
}

/// What the arguments of an event say; null where they say nothing.
pub open spec fn args_json(e: TraceEvent) -> JsonView {
    match e@.said() {
        Some(v) => v,
        None => JsonView::Null,
    }
}

fn args_json_value(e: &TraceEvent) -> (r: Json)
    ensures
        r@ == args_json(*e),
{
    match e.args_value() {
        Some(v) => copy_json(v),
        None => Json::Null,
    }
}

/// A function with its time.
pub open spec fn named_time_json(x: NamedTime) -> JsonView {
    JsonView::Obj(
        seq![
            ("function"@, JsonView::Str(x.0@)),
            ("self_us"@, time_json(x.1 as int)),
        ],
    )
}

fn named_time_value(x: &NamedTime) -> (r: Json)
    ensures
        r@ == named_time_json(*x),
{
    let mut m = no_members();
    put_member(&mut m, "function", text_value(x.0.as_str()));
    put_member(&mut m, "self_us", time_value(x.1));
    assert(members_of(m@) =~= named_time_json(*x)->Obj_0);
    object(m)
}

/// Functions with their times.
pub open spec fn named_times_list(rows: Seq<NamedTime>) -> Seq<JsonView> {
    Seq::new(rows.len(), |i: int| named_time_json(rows[i]))
}

fn list_named_times(rows: &Vec<NamedTime>) -> (r: Vec<Json>)
    ensures
        json_views(r@) == named_times_list(rows@),
{
    let mut r: Vec<Json> = Vec::new();
    let mut i: usize = 0;
    while i < rows.len()
        invariant
            i <= rows@.len(),
            r@.len() == i,
            forall|k: int| 0 <= k < i ==> (#[trigger] r@[k])@ == named_times_list(rows@)[k],
        decreases rows@.len() - i,
    {
        r.push(named_time_value(&rows[i]));
        i = i + 1;
    }
    assert(json_views(r@) =~= named_times_list(rows@));
    r
}

/// A jank cluster.
pub open spec fn cluster_json(x: JankCluster) -> JsonView {
    JsonView::Obj(
        seq![
            ("busy_us"@, time_json(x.busy as int)),
            ("dropped_frames"@, count_json(x.dropped_frames as nat)),
            ("end_us"@, mean_json(x.end.num as int, x.end.den as int)),
            ("max_run_us"@, time_json(x.max_run as int)),
            ("start_us"@, mean_json(x.start.num as int, x.start.den as int)),
            ("top_calls"@, JsonView::Arr(named_times_list(x.top_calls@))),
        ],
    )
}

#[verifier::rlimit(30)]
fn cluster_value(x: &JankCluster) -> (r: Json)
    ensures
        r@ == cluster_json(*x),
{
    let mut m = no_members();
    put_member(&mut m, "busy_us", time_value(x.busy));
    put_member(&mut m, "dropped_frames", count_value(x.dropped_frames as u64));
    put_member(&mut m, "end_us", mean_value(x.end.num, x.end.den));
    put_member(&mut m, "max_run_us", time_value(x.max_run));
    put_member(&mut m, "start_us", mean_value(x.start.num, x.start.den));
    put_member(&mut m, "top_calls", array(list_named_times(&x.top_calls)));
    assert(members_of(m@) =~= cluster_json(*x)->Obj_0);
    object(m)
}

/// The worst clusters.
pub open spec fn clusters_list(rows: Seq<JankCluster>, top: usize) -> Seq<JsonView> {
    Seq::new(shown(rows.len(), top), |i: int| cluster_json(rows[i]))
}

fn list_clusters(rows: &Vec<JankCluster>, top: usize) -> (r: Vec<Json>)
    ensures
        json_views(r@) == clusters_list(rows@, top),
{
    let mut r: Vec<Json> = Vec::new();
    let mut i: usize = 0;
    while i < rows.len() && i < top
        invariant
            i <= rows@.len(),
            i <= top,
            r@.len() == i,
            forall|k: int| 0 <= k < i ==> (#[trigger] r@[k])@ == clusters_list(rows@, top)[k],
        decreases rows@.len() - i,
    {
        r.push(cluster_value(&rows[i]));
        i = i + 1;
    }
    assert(json_views(r@) =~= clusters_list(rows@, top));
    r
}

/// A bucket of the timeline; its share of the bucket's time is handed in.
pub open spec fn bucket_json(x: Bucket, i: int, start: int, width: int, share: JsonView) -> JsonView {
    JsonView::Obj(
        seq![
            ("bucket"@, count_json(i as nat)),
            ("busy"@, share),
            ("events"@, count_json(x.events as nat)),
            ("runtask_us"@, time_json(x.run as int)),
            ("t_us"@, time_json(start + i * width)),
        ],
    )
}

fn bucket_value(x: &Bucket, i: usize, start: i128, width: i128, share: &str) -> (r: Json)
    requires
        -STEP_BOUND <= width <= STEP_BOUND,
        -START_BOUND <= start <= START_BOUND,
    ensures
        r@ == bucket_json(*x, i as int, start as int, width as int, JsonView::Number(share@)),
{
    let mut m = no_members();
    put_member(&mut m, "bucket", count_value(i as u64));
    put_member(&mut m, "busy", Json::Number(share.to_string()));
    put_member(&mut m, "events", count_value(x.events as u64));
    put_member(&mut m, "runtask_us", time_value(x.run));
    assert(-0x1_0000_0000_0000_0000 * STEP_BOUND <= i * width <= 0x1_0000_0000_0000_0000 * STEP_BOUND)
        by (nonlinear_arith)
        requires
            0 <= i <= 0x1_0000_0000_0000_0000,
            -STEP_BOUND <= width <= STEP_BOUND,
    ;
    put_member(&mut m, "t_us", time_value(start + i as i128 * width));
    assert(members_of(m@) =~= bucket_json(*x, i as int, start as int, width as int, JsonView::Number(share@))->Obj_0);
    object(m)
}

/// The buckets of the timeline.
pub open spec fn buckets_list(rows: Seq<Bucket>, start: int, width: int, shares: Seq<String>) -> Seq<JsonView> {
    Seq::new(rows.len(), |i: int| bucket_json(rows[i], i, start, width, given(shares, i)))
}

fn list_buckets(rows: &Vec<Bucket>, start: i128, width: i128, shares: &Vec<String>) -> (r: Vec<Json>)
    requires
        -STEP_BOUND <= width <= STEP_BOUND,
        -START_BOUND <= start <= START_BOUND,
        shares@.len() >= rows@.len(),
    ensures
        json_views(r@) == buckets_list(rows@, start as int, width as int, shares@),
{
    let mut r: Vec<Json> = Vec::new();
    let mut i: usize = 0;
    while i < rows.len()
        invariant
            i <= rows@.len(),
            -STEP_BOUND <= width <= STEP_BOUND,
            -START_BOUND <= start <= START_BOUND,
            shares@.len() >= rows@.len(),
            r@.len() == i,
            forall|k: int| 0 <= k < i ==> (#[trigger] r@[k])@ == buckets_list(rows@, start as int, width as int, shares@)[k],
        decreases rows@.len() - i,
    {
        r.push(bucket_value(&rows[i], i, start, width, shares[i].as_str()));
        i = i + 1;
    }
    assert(json_views(r@) =~= buckets_list(rows@, start as int, width as int, shares@));
    r
}

/// An event name within a task.
pub open spec fn child_json(x: NameRow) -> JsonView {
    JsonView::Obj(
        seq![
            ("count"@, count_json(x.count as nat)),
            ("name"@, JsonView::Str(x.name@)),
            ("total_us"@, time_json(x.total as int)),
        ],
    )
}

fn child_value(x: &NameRow) -> (r: Json)
    ensures
        r@ == child_json(*x),
{
    let mut m = no_members();
    put_member(&mut m, "count", count_value(x.count as u64));
    put_member(&mut m, "name", text_value(x.name.as_str()));
    put_member(&mut m, "total_us", time_value(x.total));
    assert(members_of(m@) =~= child_json(*x)->Obj_0);
    object(m)
}

/// The event names within a task.
pub open spec fn children_list(rows: Seq<NameRow>) -> Seq<JsonView> {
    Seq::new(rows.len(), |i: int| child_json(rows[i]))
}

fn list_children(rows: &Vec<NameRow>) -> (r: Vec<Json>)
    ensures
        json_views(r@) == children_list(rows@),
{
    let mut r: Vec<Json> = Vec::new();
    let mut i: usize = 0;
    while i < rows.len()
        invariant
            i <= rows@.len(),
            r@.len() == i,
            forall|k: int| 0 <= k < i ==> (#[trigger] r@[k])@ == children_list(rows@)[k],
        decreases rows@.len() - i,
    {
        r.push(child_value(&rows[i]));
        i = i + 1;
    }
    assert(json_views(r@) =~= children_list(rows@));
    r
}

/// An event name.
pub open spec fn name_json(x: NameRow) -> JsonView {
    JsonView::Obj(
        seq![
            ("avg_us"@, average_json(x.total, x.count)),
            ("count"@, count_json(x.count as nat)),
            ("name"@, JsonView::Str(x.name@)),
            ("total_us"@, time_json(x.total as int)),
        ],
    )
}

fn name_value(x: &NameRow) -> (r: Json)
    ensures
        r@ == name_json(*x),
{
    let mut m = no_members();
    put_member(&mut m, "avg_us", average_value(x.total, x.count));
    put_member(&mut m, "count", count_value(x.count as u64));
    put_member(&mut m, "name", text_value(x.name.as_str()));
    put_member(&mut m, "total_us", time_value(x.total));
    assert(members_of(m@) =~= name_json(*x)->Obj_0);
    object(m)
}

/// The event names.
pub open spec fn names_list(rows: Seq<NameRow>, top: usize) -> Seq<JsonView> {
    Seq::new(shown(rows.len(), top), |i: int| name_json(rows[i]))
}

fn list_names(rows: &Vec<NameRow>, top: usize) -> (r: Vec<Json>)
    ensures
        json_views(r@) == names_list(rows@, top),
{
    let mut r: Vec<Json> = Vec::new();
    let mut i: usize = 0;
    while i < rows.len() && i < top
        invariant
            i <= rows@.len(),
            i <= top,
            r@.len() == i,
            forall|k: int| 0 <= k < i ==> (#[trigger] r@[k])@ == names_list(rows@, top)[k],
        decreases rows@.len() - i,
    {
        r.push(name_value(&rows[i]));
        i = i + 1;
    }
    assert(json_views(r@) =~= names_list(rows@, top));
    r
}

/// A thread.
pub open spec fn thread_json(x: ThreadRow) -> JsonView {
    JsonView::Obj(
        seq![
            ("events"@, count_json(x.events as nat)),
            ("runtask_us"@, time_json(x.run as int)),
            ("tid"@, count_json(x.tid as nat)),
            ("top_event"@, JsonView::Str(x.top_event@)),
        ],
    )
}

fn thread_value(x: &ThreadRow) -> (r: Json)
    ensures
        r@ == thread_json(*x),
{
    let mut m = no_members();
    put_member(&mut m, "events", count_value(x.events as u64));
    put_member(&mut m, "runtask_us", time_value(x.run));
    put_member(&mut m, "tid", count_value(x.tid));
    put_member(&mut m, "top_event", text_value(x.top_event.as_str()));
    assert(members_of(m@) =~= thread_json(*x)->Obj_0);
    object(m)
}

/// The threads.
pub open spec fn threads_list(rows: Seq<ThreadRow>, top: usize) -> Seq<JsonView> {
    Seq::new(shown(rows.len(), top), |i: int| thread_json(rows[i]))
}

fn list_threads(rows: &Vec<ThreadRow>, top: usize) -> (r: Vec<Json>)
    ensures
        json_views(r@) == threads_list(rows@, top),
{
    let mut r: Vec<Json> = Vec::new();
    let mut i: usize = 0;
    while i < rows.len() && i < top
        invariant
            i <= rows@.len(),
            i <= top,
            r@.len() == i,
            forall|k: int| 0 <= k < i ==> (#[trigger] r@[k])@ == threads_list(rows@, top)[k],
        decreases rows@.len() - i,
    {
        r.push(thread_value(&rows[i]));
        i = i + 1;
    }
    assert(json_views(r@) =~= threads_list(rows@, top));
    r
}

/// The durations of a name.
pub open spec fn stat_json(x: StatRow) -> JsonView {
    JsonView::Obj(
        seq![
            ("avg_us"@, average_json(x.total, x.count)),
            ("count"@, count_json(x.count as nat)),
            ("max_us"@, time_json(x.max as int)),
            ("min_us"@, time_json(x.min as int)),
            ("name"@, JsonView::Str(x.name@)),
            ("p50_us"@, time_json(x.p50 as int)),
            ("p90_us"@, time_json(x.p90 as int)),
            ("p99_us"@, time_json(x.p99 as int)),
            ("total_us"@, time_json(x.total as int)),
        ],
    )
}

#[verifier::rlimit(30)]
fn stat_value(x: &StatRow) -> (r: Json)
    ensures
        r@ == stat_json(*x),
{
    let mut m = no_members();
    put_member(&mut m, "avg_us", average_value(x.total, x.count));
    put_member(&mut m, "count", count_value(x.count as u64));
    put_member(&mut m, "max_us", time_value(x.max));
    put_member(&mut m, "min_us", time_value(x.min));
    put_member(&mut m, "name", text_value(x.name.as_str()));
    put_member(&mut m, "p50_us", time_value(x.p50));
    put_member(&mut m, "p90_us", time_value(x.p90));
    put_member(&mut m, "p99_us", time_value(x.p99));
    put_member(&mut m, "total_us", time_value(x.total));
    assert(members_of(m@) =~= stat_json(*x)->Obj_0);
    object(m)
}

/// The durations of all names.
pub open spec fn stats_list(rows: Seq<StatRow>) -> Seq<JsonView> {
    Seq::new(rows.len(), |i: int| stat_json(rows[i]))
}

fn list_stats(rows: &Vec<StatRow>) -> (r: Vec<Json>)
    ensures
        json_views(r@) == stats_list(rows@),
{
    let mut r: Vec<Json> = Vec::new();
    let mut i: usize = 0;
    while i < rows.len()
        invariant
            i <= rows@.len(),
            r@.len() == i,
            forall|k: int| 0 <= k < i ==> (#[trigger] r@[k])@ == stats_list(rows@)[k],
        decreases rows@.len() - i,
    {
        r.push(stat_value(&rows[i]));
        i = i + 1;
    }
    assert(json_views(r@) =~= stats_list(rows@));
    r
}

/// The longest call of a task; null where there is none.
pub open spec fn call_json(c: Option<(String, i64)>) -> JsonView {
    match c {
        Some((name, d)) => JsonView::Obj(
            seq![("dur_us"@, time_json(d as int)), ("name"@, JsonView::Str(shown_name(name@)))],
        ),
        None => JsonView::Null,
    }
}

fn call_value(c: &Option<(String, i64)>) -> (r: Json)
    ensures
        r@ == call_json(*c),
{
    match c {
        Some((name, d)) => {
            let mut m = no_members();
            put_member(&mut m, "dur_us", time_value(*d as i128));
            if name.as_str().is_empty() {
                put_member(&mut m, "name", text_value("(anonymous)"));
            } else {
                put_member(&mut m, "name", text_value(name.as_str()));
            }
            assert(members_of(m@) =~= call_json(*c)->Obj_0);
            object(m)
        },
        None => Json::Null,
    }
}

/// A task with what it does.
pub open spec fn task_json(x: TaskRow, e: TraceEvent, i: int, min_ts: i64) -> JsonView {
    JsonView::Obj(
        seq![
            ("children"@, JsonView::Arr(children_list(x.children@))),
            ("dur_us"@, lasting_json(e)),
            ("rank"@, count_json((i + 1) as nat)),
            ("t_us"@, since_json(e.ts, min_ts)),
            ("tid"@, count_json(e.tid as nat)),
            ("top_function_call"@, call_json(x.top_call)),
        ],
    )
}

#[verifier::rlimit(30)]
fn task_value(x: &TaskRow, e: &TraceEvent, i: usize, min_ts: i64) -> (r: Json)
    requires
        i < usize::MAX,
    ensures
        r@ == task_json(*x, *e, i as int, min_ts),
{
    let mut m = no_members();
    put_member(&mut m, "children", array(list_children(&x.children)));
    put_member(&mut m, "dur_us", lasting_value(e));
    put_member(&mut m, "rank", count_value(i as u64 + 1));
    put_member(&mut m, "t_us", since_value(e.ts, min_ts));
    put_member(&mut m, "tid", count_value(e.tid));
    put_member(&mut m, "top_function_call", call_value(&x.top_call));
    assert(members_of(m@) =~= task_json(*x, *e, i as int, min_ts)->Obj_0);
    object(m)
}

/// The longest tasks.
pub open spec fn tasks_list(rows: Seq<TaskRow>, events: Seq<TraceEvent>, min_ts: i64) -> Seq<JsonView> {
    Seq::new(rows.len(), |i: int| task_json(rows[i], events[rows[i].at as int], i, min_ts))
}

fn list_tasks(rows: &Vec<TaskRow>, events: &[TraceEvent], min_ts: i64) -> (r: Vec<Json>)
    requires
        tasks_at(rows@, events@.len()),
    ensures
        json_views(r@) == tasks_list(rows@, events@, min_ts),
{
    let mut r: Vec<Json> = Vec::new();
    let mut i: usize = 0;
    while i < rows.len()
        invariant
            i <= rows@.len(),
            tasks_at(rows@, events@.len()),
            r@.len() == i,
            forall|k: int| 0 <= k < i ==> (#[trigger] r@[k])@ == tasks_list(rows@, events@, min_ts)[k],
        decreases rows@.len() - i,
    {
        r.push(task_value(&rows[i], &events[rows[i].at], i, min_ts));
        i = i + 1;
    }
    assert(json_views(r@) =~= tasks_list(rows@, events@, min_ts));
    r
}

/// An event.
pub open spec fn event_json(x: TraceEvent, min_ts: i64) -> JsonView {
    JsonView::Obj(
        seq![
            ("args"@, args_json(x)),
            ("dur_us"@, lasting_json(x)),
            ("name"@, JsonView::Str(x.name@)),
            ("pid"@, count_json(x.pid as nat)),
            ("t_us"@, since_json(x.ts, min_ts)),
            ("tid"@, count_json(x.tid as nat)),
        ],
    )
}

fn event_value(x: &TraceEvent, min_ts: i64) -> (r: Json)
    ensures
        r@ == event_json(*x, min_ts),
{
    let mut m = no_members();
    put_member(&mut m, "args", args_json_value(x));
    put_member(&mut m, "dur_us", lasting_value(x));
    put_member(&mut m, "name", text_value(x.name.as_str()));
    put_member(&mut m, "pid", count_value(x.pid));
    put_member(&mut m, "t_us", since_value(x.ts, min_ts));
    put_member(&mut m, "tid", count_value(x.tid));
    assert(members_of(m@) =~= event_json(*x, min_ts)->Obj_0);
    object(m)
}

/// The events at the given places.
pub open spec fn events_list(rows: Seq<usize>, top: usize, events: Seq<TraceEvent>, min_ts: i64) -> Seq<JsonView> {
    Seq::new(shown(rows.len(), top), |i: int| event_json(events[rows[i] as int], min_ts))
}

fn list_events(rows: &Vec<usize>, top: usize, events: &[TraceEvent], min_ts: i64) -> (r: Vec<Json>)
    requires
        places_at(rows@, events@.len()),
    ensures
        json_views(r@) == events_list(rows@, top, events@, min_ts),
{
    let mut r: Vec<Json> = Vec::new();
    let mut i: usize = 0;
    while i < rows.len() && i < top
        invariant
            i <= rows@.len(),
            i <= top,
            places_at(rows@, events@.len()),
            r@.len() == i,
            forall|k: int| 0 <= k < i ==> (#[trigger] r@[k])@ == events_list(rows@, top, events@, min_ts)[k],
        decreases rows@.len() - i,
    {
        r.push(event_value(&events[rows[i]], min_ts));
        i = i + 1;
    }
    assert(json_views(r@) =~= events_list(rows@, top, events@, min_ts));
    r
}

/// An event whose arguments match.
pub open spec fn find_json(x: TraceEvent, min_ts: i64) -> JsonView {
    JsonView::Obj(
        seq![
            ("args"@, args_json(x)),
            ("dur_us"@, lasting_json(x)),
            ("name"@, JsonView::Str(x.name@)),
            ("t_us"@, since_json(x.ts, min_ts)),
            ("tid"@, count_json(x.tid as nat)),
        ],
    )
}

fn find_value(x: &TraceEvent, min_ts: i64) -> (r: Json)
    ensures
        r@ == find_json(*x, min_ts),
{
    let mut m = no_members();
    put_member(&mut m, "args", args_json_value(x));
    put_member(&mut m, "dur_us", lasting_value(x));
    put_member(&mut m, "name", text_value(x.name.as_str()));
    put_member(&mut m, "t_us", since_value(x.ts, min_ts));
    put_member(&mut m, "tid", count_value(x.tid));
    assert(members_of(m@) =~= find_json(*x, min_ts)->Obj_0);
    object(m)
}

/// The events whose arguments match.
pub open spec fn finds_list(rows: Seq<FindRow>, top: usize, events: Seq<TraceEvent>, min_ts: i64) -> Seq<JsonView> {
    Seq::new(shown(rows.len(), top), |i: int| find_json(events[rows[i].at as int], min_ts))
}

fn list_finds(rows: &Vec<FindRow>, top: usize, events: &[TraceEvent], min_ts: i64) -> (r: Vec<Json>)
    requires
        finds_at(rows@, events@.len()),
    ensures
        json_views(r@) == finds_list(rows@, top, events@, min_ts),
{
    let mut r: Vec<Json> = Vec::new();
    let mut i: usize = 0;
    while i < rows.len() && i < top
        invariant
            i <= rows@.len(),
            i <= top,
            finds_at(rows@, events@.len()),
            r@.len() == i,
            forall|k: int| 0 <= k < i ==> (#[trigger] r@[k])@ == finds_list(rows@, top, events@, min_ts)[k],
        decreases rows@.len() - i,
    {
        r.push(find_value(&events[rows[i].at], min_ts));
        i = i + 1;
    }
    assert(json_views(r@) =~= finds_list(rows@, top, events@, min_ts));
    r
}

/// A function that matches.
pub open spec fn found_json(x: FoundNode) -> JsonView {
    JsonView::Obj(
        seq![
            ("function"@, JsonView::Str(x.function@)),
            ("self_us"@, time_json(x.time as int)),
            ("url"@, JsonView::Str(x.url@)),
        ],
    )
}

fn found_value(x: &FoundNode) -> (r: Json)
    ensures
        r@ == found_json(*x),
{
    let mut m = no_members();
    put_member(&mut m, "function", text_value(x.function.as_str()));
    put_member(&mut m, "self_us", time_value(x.time));
    put_member(&mut m, "url", text_value(x.url.as_str()));
    assert(members_of(m@) =~= found_json(*x)->Obj_0);
    object(m)
}

/// The functions that match.
pub open spec fn founds_list(rows: Seq<FoundNode>, top: usize) -> Seq<JsonView> {
    Seq::new(shown(rows.len(), top), |i: int| found_json(rows[i]))
}

fn list_founds(rows: &Vec<FoundNode>, top: usize) -> (r: Vec<Json>)
    ensures
        json_views(r@) == founds_list(rows@, top),
{
    let mut r: Vec<Json> = Vec::new();
    let mut i: usize = 0;
    while i < rows.len() && i < top
        invariant
            i <= rows@.len(),
            i <= top,
            r@.len() == i,
            forall|k: int| 0 <= k < i ==> (#[trigger] r@[k])@ == founds_list(rows@, top)[k],
        decreases rows@.len() - i,
    {
        r.push(found_value(&rows[i]));
        i = i + 1;
    }
    assert(json_views(r@) =~= founds_list(rows@, top));
    r
}

/// What a search found.
pub open spec fn search_json(x: Found, top: usize, events: Seq<TraceEvent>, min_ts: i64) -> JsonView {
    JsonView::Obj(
        seq![
            ("cpu_profile"@, JsonView::Arr(founds_list(x.nodes@, top))),
            ("events"@, JsonView::Arr(finds_list(x.events@, top, events, min_ts))),
        ],
    )
}

fn search_value(x: &Found, top: usize, events: &[TraceEvent], min_ts: i64) -> (r: Json)
    requires
        finds_at(x.events@, events@.len()),
    ensures
        r@ == search_json(*x, top, events@, min_ts),
{
    let mut m = no_members();
    put_member(&mut m, "cpu_profile", array(list_founds(&x.nodes, top)));
    put_member(&mut m, "events", array(list_finds(&x.events, top, events, min_ts)));
    assert(members_of(m@) =~= search_json(*x, top, events@, min_ts)->Obj_0);
    object(m)
}

/// A function; its share is handed in.
pub open spec fn function_json(x: FunctionRow, share: JsonView) -> JsonView {
    JsonView::Obj(
        seq![
            ("function"@, JsonView::Str(x.function@)),
            ("pct"@, share),
            ("self_us"@, time_json(x.time as int)),
            ("url"@, JsonView::Str(x.url@)),
        ],
    )
}

fn function_value(x: &FunctionRow, share: &str) -> (r: Json)
    ensures
        r@ == function_json(*x, JsonView::Number(share@)),
{
    let mut m = no_members();
    put_member(&mut m, "function", text_value(x.function.as_str()));
    put_member(&mut m, "pct", Json::Number(share.to_string()));
    put_member(&mut m, "self_us", time_value(x.time));
    put_member(&mut m, "url", text_value(x.url.as_str()));
    assert(members_of(m@) =~= function_json(*x, JsonView::Number(share@))->Obj_0);
    object(m)
}

/// The functions with most time.
pub open spec fn functions_list(rows: Seq<FunctionRow>, top: usize, shares: Seq<String>) -> Seq<JsonView> {
    Seq::new(shown(rows.len(), top), |i: int| function_json(rows[i], given(shares, i)))
}

fn list_functions(rows: &Vec<FunctionRow>, top: usize, shares: &Vec<String>) -> (r: Vec<Json>)
    requires
        shares@.len() >= shown(rows@.len(), top),
    ensures
        json_views(r@) == functions_list(rows@, top, shares@),
{
    let mut r: Vec<Json> = Vec::new();
    let mut i: usize = 0;
    while i < rows.len() && i < top
        invariant
            i <= rows@.len(),
            i <= top,
            shares@.len() >= shown(rows@.len(), top),
            r@.len() == i,
            forall|k: int| 0 <= k < i ==> (#[trigger] r@[k])@ == functions_list(rows@, top, shares@)[k],
        decreases rows@.len() - i,
    {
        r.push(function_value(&rows[i], shares[i].as_str()));
        i = i + 1;
    }
    assert(json_views(r@) =~= functions_list(rows@, top, shares@));
    r
}

/// The names of a stack.
pub open spec fn frames_named_list(rows: Seq<String>) -> Seq<JsonView> {
    Seq::new(rows.len(), |i: int| JsonView::Str(rows[i]@))
}

fn list_frames_named(rows: &Vec<String>) -> (r: Vec<Json>)
    ensures
        json_views(r@) == frames_named_list(rows@),
{
    let mut r: Vec<Json> = Vec::new();
    let mut i: usize = 0;
    while i < rows.len()
        invariant
            i <= rows@.len(),
            r@.len() == i,
            forall|k: int| 0 <= k < i ==> (#[trigger] r@[k])@ == frames_named_list(rows@)[k],
        decreases rows@.len() - i,
    {
        r.push(text_value(rows[i].as_str()));
        i = i + 1;
    }
    assert(json_views(r@) =~= frames_named_list(rows@));
    r
}

/// A stack; its share is handed in.
pub open spec fn stack_json(x: StackRow, i: int, share: JsonView) -> JsonView {
    JsonView::Obj(
        seq![
            ("depth"@, count_json(x.stack@.len())),
            ("leaf"@, JsonView::Str(x.leaf@)),
            ("leaf_url"@, JsonView::Str(x.file@)),
            ("pct"@, share),
            ("rank"@, count_json((i + 1) as nat)),
            ("self_us"@, time_json(x.time as int)),
            ("stack"@, JsonView::Arr(frames_named_list(x.stack@))),
        ],
    )
}

#[verifier::rlimit(30)]
fn stack_value(x: &StackRow, i: usize, share: &str) -> (r: Json)
    requires
        i < usize::MAX,
    ensures
        r@ == stack_json(*x, i as int, JsonView::Number(share@)),
{
    let mut m = no_members();
    put_member(&mut m, "depth", count_value(x.stack.len() as u64));
    put_member(&mut m, "leaf", text_value(x.leaf.as_str()));
    put_member(&mut m, "leaf_url", text_value(x.file.as_str()));
    put_member(&mut m, "pct", Json::Number(share.to_string()));
    put_member(&mut m, "rank", count_value(i as u64 + 1));
    put_member(&mut m, "self_us", time_value(x.time));
    put_member(&mut m, "stack", array(list_frames_named(&x.stack)));
    assert(members_of(m@) =~= stack_json(*x, i as int, JsonView::Number(share@))->Obj_0);
    object(m)
}

/// The heaviest stacks.
pub open spec fn stacks_list(rows: Seq<StackRow>, shares: Seq<String>) -> Seq<JsonView> {
    Seq::new(rows.len(), |i: int| stack_json(rows[i], i, given(shares, i)))
}

fn list_stacks(rows: &Vec<StackRow>, shares: &Vec<String>) -> (r: Vec<Json>)
    requires
        shares@.len() >= rows@.len(),
    ensures
        json_views(r@) == stacks_list(rows@, shares@),
{
    let mut r: Vec<Json> = Vec::new();
    let mut i: usize = 0;
    while i < rows.len()
        invariant
            i <= rows@.len(),
            shares@.len() >= rows@.len(),
            r@.len() == i,
            forall|k: int| 0 <= k < i ==> (#[trigger] r@[k])@ == stacks_list(rows@, shares@)[k],
        decreases rows@.len() - i,
    {
        r.push(stack_value(&rows[i], i, shares[i].as_str()));
        i = i + 1;
    }
    assert(json_views(r@) =~= stacks_list(rows@, shares@));
    r
}

/// A row of the call tree; its share is handed in.
pub open spec fn call_row_json(x: CallRow, share: JsonView) -> JsonView {
    JsonView::Obj(
        seq![
            ("depth"@, count_json(x.depth as nat)),
            ("function"@, JsonView::Str(x.function@)),
            ("inclusive_us"@, time_json(x.inclusive as int)),
            ("pct"@, share),
            ("self_us"@, time_json(x.own as int)),
            ("url"@, JsonView::Str(x.url@)),
        ],
    )
}

fn call_row_value(x: &CallRow, share: &str) -> (r: Json)
    ensures
        r@ == call_row_json(*x, JsonView::Number(share@)),
{
    let mut m = no_members();
    put_member(&mut m, "depth", count_value(x.depth as u64));
    put_member(&mut m, "function", text_value(x.function.as_str()));
    put_member(&mut m, "inclusive_us", time_value(x.inclusive));
    put_member(&mut m, "pct", Json::Number(share.to_string()));
    put_member(&mut m, "self_us", time_value(x.own));
    put_member(&mut m, "url", text_value(x.url.as_str()));
    assert(members_of(m@) =~= call_row_json(*x, JsonView::Number(share@))->Obj_0);
    object(m)
}

/// The rows of the call tree.
pub open spec fn call_rows_list(rows: Seq<CallRow>, shares: Seq<String>) -> Seq<JsonView> {
    Seq::new(rows.len(), |i: int| call_row_json(rows[i], given(shares, i)))
}

fn list_call_rows(rows: &Vec<CallRow>, shares: &Vec<String>) -> (r: Vec<Json>)
    requires
        shares@.len() >= rows@.len(),
    ensures
        json_views(r@) == call_rows_list(rows@, shares@),
{
    let mut r: Vec<Json> = Vec::new();
    let mut i: usize = 0;
    while i < rows.len()
        invariant
            i <= rows@.len(),
            shares@.len() >= rows@.len(),
            r@.len() == i,
            forall|k: int| 0 <= k < i ==> (#[trigger] r@[k])@ == call_rows_list(rows@, shares@)[k],
        decreases rows@.len() - i,
    {
        r.push(call_row_value(&rows[i], shares[i].as_str()));
        i = i + 1;
    }
    assert(json_views(r@) =~= call_rows_list(rows@, shares@));
    r
}

/// Collections of one kind.
pub open spec fn group_json(x: GcGroup, g: int) -> JsonView {
    JsonView::Obj(
        seq![
            ("count"@, count_json(x.count as nat)),
            ("group"@, JsonView::Str(group_name(g))),
            ("max_us"@, time_json(x.max as int)),
            ("total_us"@, time_json(x.total as int)),
        ],
    )
}

fn group_value(x: &GcGroup, g: usize) -> (r: Json)
    ensures
        r@ == group_json(*x, g as int),
{
    let mut m = no_members();
    put_member(&mut m, "count", count_value(x.count as u64));
    put_member(&mut m, "group", text_value(gc_group_name(g)));
    put_member(&mut m, "max_us", time_value(x.max));
    put_member(&mut m, "total_us", time_value(x.total));
    assert(members_of(m@) =~= group_json(*x, g as int)->Obj_0);
    object(m)
}

/// Collections by kind.
pub open spec fn groups_list(rows: Seq<GcGroup>) -> Seq<JsonView> {
    Seq::new(rows.len(), |i: int| group_json(rows[i], i))
}

fn list_groups(rows: &Vec<GcGroup>) -> (r: Vec<Json>)
    ensures
        json_views(r@) == groups_list(rows@),
{
    let mut r: Vec<Json> = Vec::new();
    let mut i: usize = 0;
    while i < rows.len()
        invariant
            i <= rows@.len(),
            r@.len() == i,
            forall|k: int| 0 <= k < i ==> (#[trigger] r@[k])@ == groups_list(rows@)[k],
        decreases rows@.len() - i,
    {
        r.push(group_value(&rows[i], i));
        i = i + 1;
    }
    assert(json_views(r@) =~= groups_list(rows@));
    r
}

/// The longest times.
pub open spec fn longest_list(rows: Seq<i128>, top: usize) -> Seq<JsonView> {
    Seq::new(shown(rows.len(), top), |i: int| time_json(rows[i] as int))
}

fn list_longest(rows: &Vec<i128>, top: usize) -> (r: Vec<Json>)
    ensures
        json_views(r@) == longest_list(rows@, top),
{
    let mut r: Vec<Json> = Vec::new();
    let mut i: usize = 0;
    while i < rows.len() && i < top
        invariant
            i <= rows@.len(),
            i <= top,
            r@.len() == i,
            forall|k: int| 0 <= k < i ==> (#[trigger] r@[k])@ == longest_list(rows@, top)[k],
        decreases rows@.len() - i,
    {
        r.push(time_value(rows[i]));
        i = i + 1;
    }
    assert(json_views(r@) =~= longest_list(rows@, top));
    r
}

/// The first of some times; zero where there is none.
pub open spec fn first_time(rows: Seq<i128>) -> int {
    if rows.len() > 0 {
        rows[0] as int
    } else {
        0
    }
}

fn find_first_time(rows: &Vec<i128>) -> (r: i128)
    ensures
        r == first_time(rows@),
{
    if rows.len() > 0 {
        rows[0]
    } else {
        0
    }
}

/// The long tasks.
pub open spec fn long_tasks_json(x: GcReport, limit: i64) -> JsonView {
    JsonView::Obj(
        seq![
            ("count"@, count_json(x.long_tasks@.len())),
            ("max_us"@, time_json(first_time(x.long_tasks@))),
            ("threshold_us"@, time_json(limit as int)),
            ("top_us"@, JsonView::Arr(longest_list(x.long_tasks@, TOP_TASKS))),
            ("total_us"@, time_json(x.long_total as int)),
        ],
    )
}

fn long_tasks_value(x: &GcReport, limit: i64) -> (r: Json)
    ensures
        r@ == long_tasks_json(*x, limit),
{
    let mut m = no_members();
    put_member(&mut m, "count", count_value(x.long_tasks.len() as u64));
    put_member(&mut m, "max_us", time_value(find_first_time(&x.long_tasks)));
    put_member(&mut m, "threshold_us", time_value(limit as i128));
    put_member(&mut m, "top_us", array(list_longest(&x.long_tasks, TOP_TASKS)));
    put_member(&mut m, "total_us", time_value(x.long_total));
    assert(members_of(m@) =~= long_tasks_json(*x, limit)->Obj_0);
    object(m)
}

/// Collections and long tasks.
pub open spec fn gc_json(x: GcReport, limit: i64) -> JsonView {
    JsonView::Obj(
        seq![
            ("gc"@, JsonView::Arr(groups_list(x.groups@))),
            ("long_tasks"@, long_tasks_json(x, limit)),
        ],
    )
}

fn gc_value(x: &GcReport, limit: i64) -> (r: Json)
    ensures
        r@ == gc_json(*x, limit),
{
    let mut m = no_members();
    put_member(&mut m, "gc", array(list_groups(&x.groups)));
    put_member(&mut m, "long_tasks", long_tasks_value(x, limit));
    assert(members_of(m@) =~= gc_json(*x, limit)->Obj_0);
    object(m)
}

/// The frames of a scope.
pub open spec fn frames_json(x: FrameStats, name: Seq<char>) -> JsonView {
    JsonView::Obj(
        seq![
            ("avg_us"@, average_json(x.spread.sum, x.spread.count)),
            ("count"@, count_json(x.spread.count as nat)),
            ("dropped_frames"@, count_json(x.dropped as nat)),
            ("frame_event"@, JsonView::Str(name)),
            ("max_us"@, time_json(x.spread.max as int)),
            ("p50_us"@, time_json(x.spread.p50 as int)),
            ("p90_us"@, time_json(x.spread.p90 as int)),
            ("p99_us"@, time_json(x.spread.p99 as int)),
        ],
    )
}

#[verifier::rlimit(30)]
fn frames_value(x: &FrameStats, name: &str) -> (r: Json)
    ensures
        r@ == frames_json(*x, name@),
{
    let mut m = no_members();
    put_member(&mut m, "avg_us", average_value(x.spread.sum, x.spread.count));
    put_member(&mut m, "count", count_value(x.spread.count as u64));
    put_member(&mut m, "dropped_frames", count_value(x.dropped as u64));
    put_member(&mut m, "frame_event", text_value(name));
    put_member(&mut m, "max_us", time_value(x.spread.max));
    put_member(&mut m, "p50_us", time_value(x.spread.p50));
    put_member(&mut m, "p90_us", time_value(x.spread.p90));
    put_member(&mut m, "p99_us", time_value(x.spread.p99));
    assert(members_of(m@) =~= frames_json(*x, name@)->Obj_0);
    object(m)
}

/// Tenths of a millisecond: the nearest, halves away from zero.
pub open spec fn tenths_ms(ns: int) -> int {
    if ns < 0 {
        -((50_000 - ns) / 100_000)
    } else {
        (ns + 50_000) / 100_000
    }
}

fn round_tenths(ns: i128) -> (r: i128)
    ensures
        r == tenths_ms(ns as int),
{
    let whole: i128 = ns / 100_000;
    let rest: i128 = ns % 100_000;
    if rest >= 50_000 {
        whole + 1
    } else if rest <= -50_000 {
        whole - 1
    } else {
        whole
    }
}

/// A metric: a count as it is, a time in milliseconds with one decimal.
pub open spec fn metric_json(u: Unit, v: int) -> JsonView {
    JsonView::Number(
        match u {
            Unit::Count => whole_text(v),
            Unit::Time => milli_text(tenths_ms(v) * 100),
        },
    )
}

fn metric_value(u: Unit, v: i128) -> (r: Json)
    ensures
        r@ == metric_json(u, v as int),
{
    match u {
        Unit::Count => Json::Number(whole(v)),
        Unit::Time => Json::Number(milli(round_tenths(v) * 100)),
    }
}

/// A metric in the three windows.
pub open spec fn delta_row_json(x: DeltaRow) -> JsonView {
    JsonView::Obj(
        seq![
            ("delta_post"@, metric_json(x.unit, x.post - x.shoot)),
            ("delta_pre"@, metric_json(x.unit, x.shoot - x.pre)),
            ("metric"@, JsonView::Str(x.metric@)),
            ("post"@, metric_json(x.unit, x.post as int)),
            ("pre"@, metric_json(x.unit, x.pre as int)),
            ("shoot"@, metric_json(x.unit, x.shoot as int)),
            ("unit"@, JsonView::Str(unit_name(x.unit))),
        ],
    )
}

#[verifier::rlimit(30)]
fn delta_row_value(x: &DeltaRow) -> (r: Json)
    requires
        x.fits(),
    ensures
        r@ == delta_row_json(*x),
{
    let mut m = no_members();
    put_member(&mut m, "delta_post", metric_value(x.unit, x.delta_post()));
    put_member(&mut m, "delta_pre", metric_value(x.unit, x.delta_pre()));
    put_member(&mut m, "metric", text_value(x.metric.as_str()));
    put_member(&mut m, "post", metric_value(x.unit, x.post));
    put_member(&mut m, "pre", metric_value(x.unit, x.pre));
    put_member(&mut m, "shoot", metric_value(x.unit, x.shoot));
    put_member(&mut m, "unit", text_value(unit_text(x.unit)));
    assert(members_of(m@) =~= delta_row_json(*x)->Obj_0);
    object(m)
}

/// The metrics in the three windows.
pub open spec fn delta_rows_list(rows: Seq<DeltaRow>) -> Seq<JsonView> {
    Seq::new(rows.len(), |i: int| delta_row_json(rows[i]))
}

fn list_delta_rows(rows: &Vec<DeltaRow>) -> (r: Vec<Json>)
    requires
        rows_fit(rows@),
    ensures
        json_views(r@) == delta_rows_list(rows@),
{
    let mut r: Vec<Json> = Vec::new();
    let mut i: usize = 0;
    while i < rows.len()
        invariant
            i <= rows@.len(),
            rows_fit(rows@),
            r@.len() == i,
            forall|k: int| 0 <= k < i ==> (#[trigger] r@[k])@ == delta_rows_list(rows@)[k],
        decreases rows@.len() - i,
    {
        r.push(delta_row_value(&rows[i]));
        i = i + 1;
    }
    assert(json_views(r@) =~= delta_rows_list(rows@));
    r
}

/// The functions with most time in each window.
pub open spec fn top_cpu_json(x: DeltaData) -> JsonView {
    JsonView::Obj(
        seq![
            ("post"@, JsonView::Arr(named_times_list(x.top_cpu.2@))),
            ("pre"@, JsonView::Arr(named_times_list(x.top_cpu.0@))),
            ("shoot"@, JsonView::Arr(named_times_list(x.top_cpu.1@))),
        ],
    )
}

fn top_cpu_value(x: &DeltaData) -> (r: Json)
    ensures
        r@ == top_cpu_json(*x),
{
    let mut m = no_members();
    put_member(&mut m, "post", array(list_named_times(&x.top_cpu.2)));
    put_member(&mut m, "pre", array(list_named_times(&x.top_cpu.0)));
    put_member(&mut m, "shoot", array(list_named_times(&x.top_cpu.1)));
    assert(members_of(m@) =~= top_cpu_json(*x)->Obj_0);
    object(m)
}

/// The windows around an anchor.
pub open spec fn delta_json(x: DeltaData) -> JsonView {
    JsonView::Obj(
        seq![
            ("anchor_us"@, time_json(x.anchor as int)),
            ("metrics"@, JsonView::Arr(delta_rows_list(x.rows@))),
            ("top_cpu"@, top_cpu_json(x)),
            ("windows"@, windows_json(x)),
        ],
    )
}

fn delta_value(x: &DeltaData) -> (r: Json)
    requires
        rows_fit(x.rows@),
    ensures
        r@ == delta_json(*x),
{
    let mut m = no_members();
    put_member(&mut m, "anchor_us", time_value(x.anchor));
    put_member(&mut m, "metrics", array(list_delta_rows(&x.rows)));
    put_member(&mut m, "top_cpu", top_cpu_value(x));
    put_member(&mut m, "windows", windows_value(x));
    assert(members_of(m@) =~= delta_json(*x)->Obj_0);
    object(m)
}

/// The answer speaks of events of the trace, and its figures can be told.
pub open spec fn tellable(events: Seq<TraceEvent>, a: Answer) -> bool {
    match a {
        Answer::Timeline(x) => x.plan matches Some(p) ==> plan_tellable(p),
        Answer::Task(rows) => tasks_at(rows@, events.len()),
        Answer::Events(q) => places_at(q@, events.len()),
        Answer::Find(f) => finds_at(f.events@, events.len()),
        Answer::Delta(d) => rows_fit(d.rows@),
        _ => true,
    }
}

/// The times of a timeline can be told.
pub open spec fn plan_tellable(p: Plan) -> bool {
    -START_BOUND / 2 <= p.start <= START_BOUND / 2 && -STEP_BOUND <= p.bucket <= STEP_BOUND
}

/// Whether the answer speaks of events of the trace, and its figures can be
/// told.
pub fn check_tellable(events: &[TraceEvent], a: &Answer) -> (r: bool)
    ensures
        r == tellable(events@, *a),
{
    match a {
        Answer::Timeline(x) => match &x.plan {
            Some(p) => -START_BOUND / 2 <= p.start && p.start <= START_BOUND / 2 && -STEP_BOUND
                <= p.bucket && p.bucket <= STEP_BOUND,
            None => true,
        },
        Answer::Task(rows) => check_tasks(rows, events.len()),
        Answer::Events(q) => check_places(q, events.len()),
        Answer::Find(f) => check_finds(&f.events, events.len()),
        Answer::Delta(d) => check_rows(&d.rows),
        _ => true,
    }
}

fn check_tasks(rows: &Vec<TaskRow>, len: usize) -> (r: bool)
    ensures
        r == tasks_at(rows@, len as nat),
{
    let mut i: usize = 0;
    while i < rows.len()
        invariant
            i <= rows@.len(),
            forall|k: int| 0 <= k < i ==> (#[trigger] rows@[k]).at < len,
        decreases rows@.len() - i,
    {
        if rows[i].at >= len {
            assert(!(rows@[i as int].at < len));
            return false;
        }
        i = i + 1;
    }
    true
}

fn check_places(rows: &Vec<usize>, len: usize) -> (r: bool)
    ensures
        r == places_at(rows@, len as nat),
{
    let mut i: usize = 0;
    while i < rows.len()
        invariant
            i <= rows@.len(),
            forall|k: int| 0 <= k < i ==> (#[trigger] rows@[k]) < len,
        decreases rows@.len() - i,
    {
        if rows[i] >= len {
            assert(!(rows@[i as int] < len));
            return false;
        }
        i = i + 1;
    }
    true
}

fn check_finds(rows: &Vec<FindRow>, len: usize) -> (r: bool)
    ensures
        r == finds_at(rows@, len as nat),
{
    let mut i: usize = 0;
    while i < rows.len()
        invariant
            i <= rows@.len(),
            forall|k: int| 0 <= k < i ==> (#[trigger] rows@[k]).at < len,
        decreases rows@.len() - i,
    {
        if rows[i].at >= len {
            assert(!(rows@[i as int].at < len));
            return false;
        }
        i = i + 1;
    }
    true
}

fn check_rows(rows: &Vec<DeltaRow>) -> (r: bool)
    ensures
        r == rows_fit(rows@),
{
    let mut i: usize = 0;
    while i < rows.len()
        invariant
            i <= rows@.len(),
            forall|k: int| 0 <= k < i ==> (#[trigger] rows@[k]).fits(),
        decreases rows@.len() - i,
    {
        let x = &rows[i];
        if x.shoot.checked_sub(x.pre).is_none() || x.post.checked_sub(x.shoot).is_none() {
            assert(!rows@[i as int].fits());
            return false;
        }
        i = i + 1;
    }
    true
}

/// How many shares an answer needs: one for each row that tells one.
pub open spec fn shares_needed(a: Answer, top: usize) -> nat {
    match a {
        Answer::Timeline(x) => if x.plan is Some {
            x.rows@.len()
        } else {
            0
        },
        Answer::Functions(l) => shown(l.rows@.len(), top),
        Answer::Stacks(l) => l.rows@.len(),
        Answer::CallTree(rows, _) => rows@.len(),
        _ => 0,
    }
}

/// An answer as JSON.
pub open spec fn answer_json(
    events: Seq<TraceEvent>,
    min_ts: i64,
    o: Options,
    a: Answer,
    shares: Seq<String>,
) -> JsonView {
    match a {
        Answer::Jank(j) => JsonView::Arr(clusters_list(j.clusters@, o.top)),
        Answer::Timeline(x) => match x.plan {
            Some(p) => JsonView::Arr(
                buckets_list(x.rows@, p.start - min_ts, p.bucket as int, shares),
            ),
            None => JsonView::Arr(Seq::empty()),
        },
        Answer::Task(rows) => JsonView::Arr(tasks_list(rows@, events, min_ts)),
        Answer::Names(rows) => JsonView::Arr(names_list(rows@, o.top)),
        Answer::Threads(rows) => JsonView::Arr(threads_list(rows@, o.top)),
        Answer::Stats(rows) => JsonView::Arr(stats_list(rows@)),
        Answer::Events(q) => JsonView::Arr(events_list(q@, o.top, events, min_ts)),
        Answer::Functions(l) => JsonView::Arr(functions_list(l.rows@, o.top, shares)),
        Answer::Stacks(l) => JsonView::Arr(stacks_list(l.rows@, shares)),
        Answer::CallTree(rows, _) => JsonView::Arr(call_rows_list(rows@, shares)),
        Answer::Gc(r) => JsonView::Arr(seq![gc_json(r, o.lt)]),
        Answer::Frames(f) => JsonView::Arr(seq![frames_json(f, o.frame_event@)]),
        Answer::Find(f) => search_json(f, o.top, events, min_ts),
        Answer::Delta(d) => delta_json(d),
        Answer::NoAnchor => JsonView::Null,
    }
}

/// The nearest whole millisecond; halves away from zero.
pub open spec fn rounded_ms(ns: int) -> int {
    if ns < 0 {
        -((500_000 - ns) / 1_000_000)
    } else {
        (ns + 500_000) / 1_000_000
    }
}

fn round_ms(ns: i128) -> (r: i128)
    ensures
        r == rounded_ms(ns as int),
{
    let whole: i128 = ns / 1_000_000;
    let rest: i128 = ns % 1_000_000;
    if rest >= 500_000 {
        whole + 1
    } else if rest <= -500_000 {
        whole - 1
    } else {
        whole
    }
}

/// The window of a query, in milliseconds from the start of the trace; null
/// where there is none.
pub open spec fn scope_json(w: Option<(i64, i64)>, min_ts: i64) -> JsonView {
    match w {
        Some((lo, hi)) => JsonView::Arr(
            seq![
                JsonView::Number(whole_text(rounded_ms(lo - min_ts))),
                JsonView::Number(whole_text(rounded_ms(hi - min_ts))),
            ],
        ),
        None => JsonView::Null,
    }
}

/// Write the window of a query.
pub fn scope_value(w: Option<(i64, i64)>, min_ts: i64) -> (r: Json)
    ensures
        r@ == scope_json(w, min_ts),
{
    match w {
        Some((lo, hi)) => {
            let mut a: Vec<Json> = Vec::new();
            a.push(Json::Number(whole(round_ms(lo as i128 - min_ts as i128))));
            a.push(Json::Number(whole(round_ms(hi as i128 - min_ts as i128))));
            assert(json_views(a@) =~= scope_json(w, min_ts)->Arr_0);
            array(a)
        },
        None => Json::Null,
    }
}

/// An array of one value.
fn single(v: Json) -> (r: Json)
    ensures
        r@ == JsonView::Arr(seq![v@]),
{
    let mut a: Vec<Json> = Vec::new();
    a.push(v);
    assert(json_views(a@) =~= seq![v@]);
    array(a)
}

/// An array of nothing.
fn empty() -> (r: Json)
    ensures
        r@ == JsonView::Arr(Seq::empty()),
{
    let a: Vec<Json> = Vec::new();
    assert(json_views(a@) =~= Seq::<JsonView>::empty());
    array(a)
}

/// Write an answer as JSON.
pub fn answer_value(
    events: &[TraceEvent],
    min_ts: i64,
    o: &Options,
    a: &Answer,
    shares: &Vec<String>,
) -> (r: Json)
    requires
        tellable(events@, *a),
        shares@.len() >= shares_needed(*a, o.top),
    ensures
        r@ == answer_json(events@, min_ts, *o, *a, shares@),
{
    match a {
        Answer::Jank(j) => array(list_clusters(&j.clusters, o.top)),
        Answer::Timeline(x) => match &x.plan {
            Some(p) => array(list_buckets(&x.rows, p.start - min_ts as i128, p.bucket, shares)),
            None => empty(),
        },
        Answer::Task(rows) => array(list_tasks(rows, events, min_ts)),
        Answer::Names(rows) => array(list_names(rows, o.top)),
        Answer::Threads(rows) => array(list_threads(rows, o.top)),
        Answer::Stats(rows) => array(list_stats(rows)),
        Answer::Events(q) => array(list_events(q, o.top, events, min_ts)),
        Answer::Functions(l) => array(list_functions(&l.rows, o.top, shares)),
        Answer::Stacks(l) => array(list_stacks(&l.rows, shares)),
        Answer::CallTree(rows, _) => array(list_call_rows(rows, shares)),
        Answer::Gc(r) => single(gc_value(r, o.lt)),
        Answer::Frames(f) => single(frames_value(f, o.frame_event.as_str())),
        Answer::Find(f) => search_value(f, o.top, events, min_ts),
        Answer::Delta(d) => delta_value(d),
        Answer::NoAnchor => Json::Null,
    }
}

} // verus!
