//! Forced-reflow (layout thrashing) detection.

use vstd::prelude::*;
use vstd::string::StringExecFns;
use crate::analysis::common::{
    dur_of,
    dur_or_zero,
    earlier,
    end_of,
    end_time,
    in_time_order,
    time_ordered,
    TICK_BOUND,
};
use crate::analysis::scroll::{move_start, starts_within, window_start};
use crate::json::{
    get_opt,
    items_opt,
    json_opt,
    json_views,
    member,
    member_opt,
    str_opt,
    u64_opt,
    Json,
    JsonView,
};
use crate::sort::{order, orders};
use crate::text::{after_slash, decimal, same, tail_of_path, u64_text};
use crate::trace::event::{opt_chars, TraceEvent};

verus! {

/// A task with at least two forced reflows.
pub struct ForcedReflowEntry {
    pub task_dur: i64,
    pub reflow_count: usize,
    pub layout_time: i128,
    pub initiator: Option<String>,
}

/// The forced reflows of a trace. The totals cover every task with at least
/// one forced reflow; the entries keep those with two or more.
pub struct ForcedReflowResult {
    pub entries: Vec<ForcedReflowEntry>,
    pub total_reflows: u64,
    pub total_layout_time: i128,
}

/// A string that may be missing, empty where it is.
pub open spec fn or_empty(s: Option<Seq<char>>) -> Seq<char> {
    match s {
        Some(t) => t,
        None => Seq::empty(),
    }
}

/// The label of a stack frame: function with file and line, file and line, or
/// the function alone.
pub open spec fn frame_label(frame: JsonView) -> Option<Seq<char>> {
    let func = or_empty(str_opt(member(frame, "functionName"@)));
    let file = after_slash(or_empty(str_opt(member(frame, "url"@))));
    match u64_opt(member(frame, "lineNumber"@)) {
        Some(l) => if func.len() > 0 && file.len() > 0 {
            Some(func + " ("@ + file + ":"@ + decimal(l as nat) + ")"@)
        } else if file.len() > 0 {
            Some(file + ":"@ + decimal(l as nat))
        } else if func.len() > 0 {
            Some(func)
        } else {
            None
        },
        None => if func.len() > 0 {
            Some(func)
        } else {
            None
        },
    }
}

/// The label of the first frame that has one.
pub open spec fn first_label(frames: Seq<JsonView>) -> Option<Seq<char>>
    decreases frames.len(),
{
    if frames.len() == 0 {
        None
    } else if frame_label(frames[0]) is Some {
        frame_label(frames[0])
    } else {
        first_label(frames.drop_first())
    }
}

/// The script that an event names as its initiator.
pub open spec fn initiator_of(e: TraceEvent) -> Option<Seq<char>> {
    match items_opt(member_opt(member_opt(e@.said(), "beginData"@), "stackTrace"@)) {
        Some(frames) => first_label(frames),
        None => None,
    }
}

fn text_or_empty(j: Option<&Json>) -> (r: String)
    ensures
        r@ == or_empty(str_opt(json_opt(j))),
{
    match j {
        Some(v) => match v.as_str() {
            Some(s) => s.to_owned(),
            None => String::new(),
        },
        None => String::new(),
    }
}

fn label_frame(frame: &Json) -> (r: Option<String>)
    ensures
        opt_chars(r) == frame_label(frame@),
{
    let func = text_or_empty(frame.get("functionName"));
    let url = text_or_empty(frame.get("url"));
    let file = tail_of_path(url.as_str());
    let line = match frame.get("lineNumber") {
        Some(v) => v.as_u64(),
        None => None,
    };
    let has_func = !func.as_str().is_empty();
    let has_file = !file.as_str().is_empty();
    match line {
        Some(l) => if has_func && has_file {
            let mut s = func;
            s.append(" (");
            s.append(file.as_str());
            s.append(":");
            s.append(u64_text(l).as_str());
            s.append(")");
            Some(s)
        } else if has_file {
            let mut s = file;
            s.append(":");
            s.append(u64_text(l).as_str());
            Some(s)
        } else if has_func {
            Some(func)
        } else {
            None
        },
        None => if has_func {
            Some(func)
        } else {
            None
        },
    }
}

/// The initiating script of an event, from its stack trace.
pub fn extract_initiator(e: &TraceEvent) -> (r: Option<String>)
    ensures
        opt_chars(r) == initiator_of(*e),
{
    let value = e.args_value();
    let stack = get_opt(get_opt(value, "beginData"), "stackTrace");
    let frames = match stack {
        Some(s) => match s.as_array() {
            Some(a) => a,
            None => {
                return None;
            },
        },
        None => {
            return None;
        },
    };
    let ghost all = json_views(frames@);
    let mut i: usize = 0;
    assert(all.skip(0) =~= all);
    while i < frames.len()
        invariant
            i <= frames@.len(),
            all == json_views(frames@),
            initiator_of(*e) == first_label(all.skip(i as int)),
        decreases frames@.len() - i,
    {
        assert(all.skip(i as int).drop_first() =~= all.skip(i + 1));
        assert(all.skip(i as int)[0] == frames@[i as int]@);
        let label = label_frame(&frames[i]);
        if label.is_some() {
            return label;
        }
        i = i + 1;
    }
    None
}

/// Events during which scripts run.
pub open spec fn runs_script(name: Seq<char>) -> bool {
    name == "FunctionCall"@ || name == "EvaluateScript"@ || name == "v8.run"@ || name
        == "v8.compile"@
}

/// Events that lay out.
pub open spec fn lays_out(name: Seq<char>) -> bool {
    name == "Layout"@ || name == "UpdateLayoutTree"@
}

/// What has been seen of a task: until when scripts run, how many reflows were
/// forced, the time they took, and the first initiator.
pub struct Seen {
    pub script_end: int,
    pub count: nat,
    pub time: int,
    pub init: Option<Seq<char>>,
}

/// One more event of the thread. Only events that lie in the task count. A
/// layout is forced when a script runs as it starts, or when it names its
/// initiator.
pub open spec fn seen_step(task: TraceEvent, e: TraceEvent, s: Seen) -> Seen {
    if !starts_within(task, e) || end_of(e) > end_of(task) {
        s
    } else if runs_script(e.name@) {
        if end_of(e) > s.script_end {
            Seen { script_end: end_of(e), ..s }
        } else {
            s
        }
    } else if lays_out(e.name@) && (e.ts < s.script_end || initiator_of(e) is Some) {
        Seen {
            count: s.count + 1,
            time: s.time + dur_of(e),
            init: if s.init is None {
                initiator_of(e)
            } else {
                s.init
            },
            ..s
        }
    } else {
        s
    }
}

/// What has been seen of a task after the first `n` events of the list.
pub open spec fn seen_of(events: Seq<TraceEvent>, p: Seq<usize>, task: int, n: int) -> Seen
    decreases n,
{
    if n <= 0 {
        Seen { script_end: 0, count: 0, time: 0, init: None }
    } else {
        seen_step(events[task], events[p[n - 1] as int], seen_of(events, p, task, n - 1))
    }
}

/// Event `x` is a task.
pub open spec fn is_task(events: Seq<TraceEvent>, x: int) -> bool {
    events[x].name@ == "RunTask"@ && events[x].dur is Some
}

/// Reflows forced in the tasks among the first `n` events of the list.
pub open spec fn reflows(events: Seq<TraceEvent>, p: Seq<usize>, n: int) -> nat
    decreases n,
{
    if n <= 0 {
        0
    } else {
        let x = p[n - 1] as int;
        reflows(events, p, n - 1) + if is_task(events, x) {
            seen_of(events, p, x, p.len() as int).count
        } else {
            0
        }
    }
}

/// The time of those reflows.
pub open spec fn reflow_time(events: Seq<TraceEvent>, p: Seq<usize>, n: int) -> int
    decreases n,
{
    if n <= 0 {
        0
    } else {
        let x = p[n - 1] as int;
        reflow_time(events, p, n - 1) + if is_task(events, x) {
            seen_of(events, p, x, p.len() as int).time
        } else {
            0
        }
    }
}

/// The tasks among the first `n` events of the list that thrash: those with at
/// least two forced reflows.
pub open spec fn thrashing(events: Seq<TraceEvent>, p: Seq<usize>, n: int) -> Seq<usize>
    decreases n,
{
    if n <= 0 {
        Seq::empty()
    } else {
        let before = thrashing(events, p, n - 1);
        let x = p[n - 1] as int;
        if is_task(events, x) && seen_of(events, p, x, p.len() as int).count >= 2 {
            before.push(p[n - 1])
        } else {
            before
        }
    }
}

/// The entry of a task.
pub open spec fn reflow_entry(events: Seq<TraceEvent>, p: Seq<usize>, x: int, r: ForcedReflowEntry) -> bool {
    let s = seen_of(events, p, x, p.len() as int);
    &&& r.task_dur == dur_of(events[x])
    &&& r.reflow_count == s.count
    &&& r.layout_time == s.time
    &&& opt_chars(r.initiator) == s.init
}

pub open spec fn reflow_counts(events: Seq<TraceEvent>, p: Seq<usize>, list: Seq<usize>) -> Seq<i128> {
    list.map_values(|x: usize| seen_of(events, p, x as int, p.len() as int).count as i128)
}

/// What each field of the result says, over the time-ordered list `p`.
pub open spec fn reflows_over(events: Seq<TraceEvent>, p: Seq<usize>, r: ForcedReflowResult) -> bool {
    let n = p.len() as int;
    let list = thrashing(events, p, n);
    &&& r.total_reflows == reflows(events, p, n)
    &&& r.total_layout_time == reflow_time(events, p, n)
    &&& exists|q: Seq<usize>|
        {
            &&& #[trigger] orders(reflow_counts(events, p, list), true, q)
            &&& r.entries@.len() == q.len()
            &&& forall|i: int|
                0 <= i < q.len() ==> reflow_entry(
                    events,
                    p,
                    list[q[i] as int] as int,
                    #[trigger] r.entries@[i],
                )
        }
}

/// What the result says.
pub open spec fn reflows_of(events: Seq<TraceEvent>, main_tid: u64, r: ForcedReflowResult) -> bool {
    exists|p: Seq<usize>| #[trigger] in_time_order(events, main_tid, p) && reflows_over(events, p, r)
}

proof fn lemma_seen_bound(events: Seq<TraceEvent>, p: Seq<usize>, task: int, n: int)
    requires
        0 <= n <= p.len(),
    ensures
        seen_of(events, p, task, n).count <= n,
        -TICK_BOUND * n <= seen_of(events, p, task, n).time <= TICK_BOUND * n,
    decreases n,
{
    if n > 0 {
        lemma_seen_bound(events, p, task, n - 1);
    }
}

/// Events that do not start within the task change nothing.
proof fn lemma_seen_skip(events: Seq<TraceEvent>, p: Seq<usize>, task: int, a: int, b: int)
    requires
        0 <= a <= b <= p.len(),
        forall|j: int| a <= j < b ==> !starts_within(events[task], events[#[trigger] p[j] as int]),
    ensures
        seen_of(events, p, task, b) == seen_of(events, p, task, a),
    decreases b - a,
{
    if a < b {
        lemma_seen_skip(events, p, task, a, b - 1);
        let x = p[b - 1];
    }
}

/// Look at one task.
fn look_at(
    events: &[TraceEvent],
    p: &Vec<usize>,
    task: usize,
    lo: usize,
    Ghost(tid): Ghost<u64>,
) -> (r: ForcedReflowEntry)
    requires
        in_time_order(events@, tid, p@),
        task < events@.len(),
        window_start(events@, p@, task as int, lo as int),
    ensures
        reflow_entry(events@, p@, task as int, r),
{
    let end = end_time(&events[task]);
    let mut script_end: i128 = 0;
    let mut count: usize = 0;
    let mut time: i128 = 0;
    let mut init: Option<String> = None;
    let mut j: usize = lo;
    proof {
        assert forall|k: int| 0 <= k < lo implies !starts_within(
            events@[task as int],
            events@[#[trigger] p@[k] as int],
        ) by {}
        lemma_seen_skip(events@, p@, task as int, 0, lo as int);
    }
    while j < p.len() && events[p[j]].ts as i128 <= end
        invariant
            in_time_order(events@, tid, p@),
            task < events@.len(),
            window_start(events@, p@, task as int, lo as int),
            lo <= j <= p@.len(),
            end == end_of(events@[task as int]),
            ({
                let s = seen_of(events@, p@, task as int, j as int);
                &&& script_end == s.script_end
                &&& count == s.count
                &&& time == s.time
                &&& opt_chars(init) == s.init
            }),
        decreases p@.len() - j,
    {
        let e = &events[p[j]];
        let name = e.name.as_str();
        let e_end = end_time(e);
        proof {
            lemma_seen_bound(events@, p@, task as int, j as int);
            reveal_strlit("RunTask");
            assert(p@[j as int] < events@.len());
        }
        if e_end <= end {
            if same(name, "FunctionCall") || same(name, "EvaluateScript") || same(name, "v8.run")
                || same(name, "v8.compile") {
                if e_end > script_end {
                    script_end = e_end;
                }
            } else if same(name, "Layout") || same(name, "UpdateLayoutTree") {
                let who = extract_initiator(e);
                if (e.ts as i128) < script_end || who.is_some() {
                    count = count + 1;
                    time = time + dur_or_zero(e) as i128;
                    if init.is_none() {
                        init = who;
                    }
                }
            }
        }
        j = j + 1;
    }
    proof {
        assert forall|k: int| j <= k < p@.len() implies !starts_within(
            events@[task as int],
            events@[#[trigger] p@[k] as int],
        ) by {
            if k > j {
                assert(earlier(events@, p@[j as int] as int, p@[k] as int));
            }
        }
        lemma_seen_skip(events@, p@, task as int, j as int, p@.len() as int);
    }
    ForcedReflowEntry {
        task_dur: dur_or_zero(&events[task]),
        reflow_count: count,
        layout_time: time,
        initiator: init,
    }
}

proof fn lemma_reflow_bounds(events: Seq<TraceEvent>, p: Seq<usize>, n: int)
    requires
        0 <= n <= p.len() <= u32::MAX,
    ensures
        reflows(events, p, n) <= n * u32::MAX,
        -(TICK_BOUND * u32::MAX) * n <= reflow_time(events, p, n) <= (TICK_BOUND * u32::MAX) * n,
    decreases n,
{
    if n > 0 {
        lemma_reflow_bounds(events, p, n - 1);
        lemma_seen_bound(events, p, p[n - 1] as int, p.len() as int);
    }
}

/// Detect forced reflow: layouts that run synchronously during script
/// execution or that carry a script as their initiator.
pub fn analyze_forced_reflows(events: &[TraceEvent], main_tid: u64) -> (r: ForcedReflowResult)
    requires
        events@.len() <= u32::MAX,
    ensures
        reflows_of(events@, main_tid, r),
{
    let p = time_ordered(events, main_tid);
    let m = p.len();
    let ghost len = p@.len() as int;
    let mut found: Vec<ForcedReflowEntry> = Vec::new();
    let mut keys: Vec<i128> = Vec::new();
    let mut all: u64 = 0;
    let mut all_time: i128 = 0;
    let mut lo: usize = 0;
    let mut i: usize = 0;
    while i < m
        invariant
            m == p@.len(),
            len == m,
            m <= u32::MAX,
            i <= m,
            lo <= m,
            in_time_order(events@, main_tid, p@),
            forall|j: int, k: int|
                0 <= j < lo && i <= k < m ==> events@[#[trigger] p@[j] as int].ts
                    < events@[#[trigger] p@[k] as int].ts,
            all == reflows(events@, p@, i as int),
            all_time == reflow_time(events@, p@, i as int),
            found@.len() == thrashing(events@, p@, i as int).len(),
            forall|j: int|
                0 <= j < found@.len() ==> reflow_entry(
                    events@,
                    p@,
                    thrashing(events@, p@, i as int)[j] as int,
                    #[trigger] found@[j],
                ),
            keys@ =~= reflow_counts(events@, p@, thrashing(events@, p@, i as int)),
        decreases m - i,
    {
        let task = p[i];
        let e = &events[task];
        let ghost list = thrashing(events@, p@, i as int);
        if same(e.name.as_str(), "RunTask") && e.dur.is_some() {
            assert forall|j: int| 0 <= j < lo implies events@[#[trigger] p@[j] as int].ts < e.ts by {
                assert(p@[i as int] == task);
            }
            lo = move_start(events, &p, task, lo, Ghost(main_tid));
            assert forall|j: int, k: int| 0 <= j < lo && i + 1 <= k < m implies events@[
            #[trigger] p@[j] as int].ts < events@[#[trigger] p@[k] as int].ts by {
                assert(earlier(events@, p@[i as int] as int, p@[k] as int));
            }
            let entry = look_at(events, &p, task, lo, Ghost(main_tid));
            proof {
                lemma_reflow_bounds(events@, p@, i as int);
                lemma_seen_bound(events@, p@, task as int, len);
            }
            all = all + entry.reflow_count as u64;
            all_time = all_time + entry.layout_time;
            if entry.reflow_count >= 2 {
                let ghost before = found@;
                keys.push(entry.reflow_count as i128);
                found.push(entry);
                assert forall|j: int| 0 <= j < found@.len() implies reflow_entry(
                    events@,
                    p@,
                    list.push(task)[j] as int,
                    #[trigger] found@[j],
                ) by {
                    if j < before.len() {
                        assert(found@[j] == before[j]);
                    }
                }
                assert(reflow_counts(events@, p@, list.push(task)) =~= reflow_counts(
                    events@,
                    p@,
                    list,
                ).push(entry.reflow_count as i128));
            }
        }
        i = i + 1;
    }
    let q = order(&keys, true);
    let ghost list = thrashing(events@, p@, len);
    let ghost found0 = found@;
    let mut entries: Vec<ForcedReflowEntry> = Vec::new();
    let mut k: usize = 0;
    while k < q.len()
        invariant
            k <= q@.len(),
            len == p@.len(),
            list == thrashing(events@, p@, len),
            orders(keys@, true, q@),
            keys@.len() == found@.len(),
            found@.len() == list.len(),
            forall|j: int|
                0 <= j < found@.len() ==> reflow_entry(events@, p@, list[j] as int, #[trigger] found@[j]),
            entries@.len() == k,
            forall|j: int|
                0 <= j < k ==> reflow_entry(
                    events@,
                    p@,
                    list[q@[j] as int] as int,
                    #[trigger] entries@[j],
                ),
        decreases q@.len() - k,
    {
        let slot = q[k];
        let x = &found[slot];
        let init = match &x.initiator {
            Some(s) => Some(s.clone()),
            None => None,
        };
        assert(reflow_entry(events@, p@, list[slot as int] as int, found@[slot as int]));
        entries.push(
            ForcedReflowEntry {
                task_dur: x.task_dur,
                reflow_count: x.reflow_count,
                layout_time: x.layout_time,
                initiator: init,
            },
        );
        k = k + 1;
    }
    let r = ForcedReflowResult { entries, total_reflows: all, total_layout_time: all_time };
    assert(reflows_over(events@, p@, r));
    r
}

} // verus!
