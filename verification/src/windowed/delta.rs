//! Three windows side by side: before, during and after an anchor.

use vstd::prelude::*;
use vstd::string::StringExecFns;
use crate::analysis::common::{
    dur_of,
    dur_or_zero,
    lemma_total_bound,
    percentile,
    percentile_index,
    ticks_valued,
    total,
    TICK_BOUND,
};
use crate::analysis::cpu::{
    build_cpu_profile_result,
    distinct_ids,
    lemma_fits_sum,
    nodes_of,
    profile_fits,
    profile_result,
    scan_profile_chunks_windows,
    time_by_id,
    times_of,
    CpuProfileResult,
    FunctionTime,
    ProfileNodes,
    ProfileSelfTimes,
};
use crate::doc::{doc_view, make_ms, make_ratio, put, put_num, ratio_num, Doc, PieceView};
use crate::render::{ms, txt};
use crate::scope::{is_in_window, time_in, Scope};
use crate::sort::{lemma_order_unique, orders};
use crate::text::{decimal, same, u64_text};
use crate::trace::event::TraceEvent;
use crate::trace::meta::{detect_main_thread, is_main_thread, PH_COMPLETE};
use crate::windowed::frames::{count_drops, drops, paired_durations, pairing, spread, spread_of, Spread};
use crate::windowed::gc::ms1;

verus! {

/// All that happens in a window.
pub open spec fn window_scope(w: (i64, i64)) -> Scope {
    Scope { window: Some(w), tid: None, pid: None, cat: None }
}

/// A complete event of the thread, of that name, that starts in the window.
pub open spec fn starts_in(e: TraceEvent, w: (i64, i64), tid: u64, name: Seq<char>) -> bool {
    time_in(Some(w), e.ts as int) && e.ph == PH_COMPLETE && e.tid == tid && e.name@ == name
}

/// Time in complete events of a thread by name.
pub open spec fn named_time(w: (i64, i64), tid: u64, name: Seq<char>) -> spec_fn(TraceEvent) -> int {
    |e: TraceEvent|
        if starts_in(e, w, tid, name) {
            dur_of(e)
        } else {
            0
        }
}

/// A main-thread task with a duration of at least `limit`.
pub open spec fn lasts(e: TraceEvent, w: (i64, i64), tid: u64, limit: i64) -> bool {
    starts_in(e, w, tid, "RunTask"@) && e.dur is Some && e.dur->0 >= limit
}

pub open spec fn lasting_time(w: (i64, i64), tid: u64, limit: i64) -> spec_fn(TraceEvent) -> int {
    |e: TraceEvent|
        if lasts(e, w, tid, limit) {
            dur_of(e)
        } else {
            0
        }
}

pub open spec fn lasting_hit(w: (i64, i64), tid: u64, limit: i64) -> spec_fn(TraceEvent) -> int {
    |e: TraceEvent|
        if lasts(e, w, tid, limit) {
            1
        } else {
            0
        }
}

/// A major or minor collection that starts in the window, on any thread.
pub open spec fn collects(e: TraceEvent, w: (i64, i64)) -> bool {
    time_in(Some(w), e.ts as int) && e.ph == PH_COMPLETE && (e.name@ == "MajorGC"@ || e.name@
        == "MinorGC"@)
}

pub open spec fn collect_time(w: (i64, i64)) -> spec_fn(TraceEvent) -> int {
    |e: TraceEvent|
        if collects(e, w) {
            dur_of(e)
        } else {
            0
        }
}

pub open spec fn collect_hit(w: (i64, i64)) -> spec_fn(TraceEvent) -> int {
    |e: TraceEvent|
        if collects(e, w) {
            1
        } else {
            0
        }
}

/// Sums over the events of a window.
pub struct WindowAcc {
    pub run: i128,
    pub js: i128,
    pub gc: i128,
    pub gc_count: usize,
    pub long_count: usize,
    pub long: i128,
}

pub open spec fn acc_of(events: Seq<TraceEvent>, w: (i64, i64), tid: u64, limit: i64, a: WindowAcc) -> bool {
    &&& a.run == total(events, named_time(w, tid, "RunTask"@))
    &&& a.js == total(events, named_time(w, tid, "FunctionCall"@))
    &&& a.gc == total(events, collect_time(w))
    &&& a.gc_count == total(events, collect_hit(w))
    &&& a.long_count == total(events, lasting_hit(w, tid, limit))
    &&& a.long == total(events, lasting_time(w, tid, limit))
}

/// A sum over at most a 32-bit number of events.
pub open spec fn event_sum(v: int) -> bool {
    -TICK_BOUND * u32::MAX <= v <= TICK_BOUND * u32::MAX
}

proof fn lemma_event_sum(events: Seq<TraceEvent>, f: spec_fn(TraceEvent) -> int)
    requires
        events.len() <= u32::MAX,
        ticks_valued(f),
    ensures
        event_sum(total(events, f)),
{
    lemma_total_bound(events, f);
    let n = events.len();
    assert(TICK_BOUND * n <= TICK_BOUND * u32::MAX) by (nonlinear_arith)
        requires
            0 <= n <= u32::MAX,
    ;
    assert(-TICK_BOUND * u32::MAX <= -TICK_BOUND * n) by (nonlinear_arith)
        requires
            0 <= n <= u32::MAX,
    ;
}

proof fn lemma_hits(events: Seq<TraceEvent>, f: spec_fn(TraceEvent) -> int)
    requires
        forall|e: TraceEvent| 0 <= #[trigger] f(e) <= 1,
    ensures
        0 <= total(events, f) <= events.len(),
    decreases events.len(),
{
    if events.len() > 0 {
        lemma_hits(events.drop_last(), f);
    }
}

fn sum_window(events: &[TraceEvent], w: (i64, i64), tid: u64, limit: i64) -> (a: WindowAcc)
    requires
        events@.len() <= u32::MAX,
    ensures
        acc_of(events@, w, tid, limit, a),
        event_sum(a.run as int),
        event_sum(a.js as int),
        event_sum(a.gc as int),
        event_sum(a.long as int),
        a.gc_count <= u32::MAX,
        a.long_count <= u32::MAX,
{
    let n = events.len();
    let mut a = WindowAcc { run: 0, js: 0, gc: 0, gc_count: 0, long_count: 0, long: 0 };
    let ghost fr = named_time(w, tid, "RunTask"@);
    let ghost fj = named_time(w, tid, "FunctionCall"@);
    let ghost fg = collect_time(w);
    let ghost hg = collect_hit(w);
    let ghost hl = lasting_hit(w, tid, limit);
    let ghost fl = lasting_time(w, tid, limit);
    let mut i: usize = 0;
    proof {
        assert(events@.take(0) =~= Seq::<TraceEvent>::empty());
        reveal_strlit("RunTask");
        reveal_strlit("FunctionCall");
        reveal_strlit("MajorGC");
        reveal_strlit("MinorGC");
        assert("RunTask"@.len() != "FunctionCall"@.len());
        assert("RunTask"@[0] != "MajorGC"@[0] && "RunTask"@[0] != "MinorGC"@[0]);
    }
    while i < n
        invariant
            n == events@.len(),
            n <= u32::MAX,
            i <= n,
            fr == named_time(w, tid, "RunTask"@),
            fj == named_time(w, tid, "FunctionCall"@),
            fg == collect_time(w),
            hg == collect_hit(w),
            hl == lasting_hit(w, tid, limit),
            fl == lasting_time(w, tid, limit),
            "RunTask"@ != "FunctionCall"@,
            acc_of(events@.take(i as int), w, tid, limit, a),
        decreases n - i,
    {
        let e = &events[i];
        let ghost seen = events@.take(i as int);
        let ghost more = events@.take(i + 1);
        proof {
            assert(more.drop_last() =~= seen);
            assert(more.last() == *e);
            lemma_event_sum(seen, fr);
            lemma_event_sum(seen, fj);
            lemma_event_sum(seen, fg);
            lemma_event_sum(seen, fl);
            lemma_hits(seen, hg);
            lemma_hits(seen, hl);
        }
        if is_in_window(Some(w), e.ts as i128) && e.ph == PH_COMPLETE {
            let d = dur_or_zero(e) as i128;
            if e.tid == tid {
                if same(e.name.as_str(), "RunTask") {
                    a.run = a.run + d;
                    if e.dur.is_some() && d >= limit as i128 {
                        a.long_count = a.long_count + 1;
                        a.long = a.long + d;
                    }
                } else if same(e.name.as_str(), "FunctionCall") {
                    a.js = a.js + d;
                }
            }
            if same(e.name.as_str(), "MajorGC") || same(e.name.as_str(), "MinorGC") {
                a.gc = a.gc + d;
                a.gc_count = a.gc_count + 1;
            }
        }
        i = i + 1;
    }
    proof {
        assert(events@.take(n as int) =~= events@);
        lemma_event_sum(events@, fr);
        lemma_event_sum(events@, fj);
        lemma_event_sum(events@, fg);
        lemma_event_sum(events@, fl);
        lemma_hits(events@, hg);
        lemma_hits(events@, hl);
    }
    a
}

/// A function with its self-time.
pub type NamedTime = (String, i128);

/// Names and times of the functions that have a name.
pub open spec fn named_functions(fs: Seq<FunctionTime>) -> Seq<(Seq<char>, i128)>
    decreases fs.len(),
{
    if fs.len() == 0 {
        Seq::empty()
    } else {
        let before = named_functions(fs.drop_last());
        let f = fs.last();
        if f.function_name@.len() == 0 {
            before
        } else {
            before.push((f.function_name@, f.self_time))
        }
    }
}

pub open spec fn named_view(s: Seq<NamedTime>) -> Seq<(Seq<char>, i128)> {
    s.map_values(|x: NamedTime| (x.0@, x.1))
}

/// No more than the first three.
pub open spec fn first_three<T>(s: Seq<T>) -> Seq<T> {
    if s.len() <= 3 {
        s
    } else {
        s.take(3)
    }
}

proof fn lemma_named_grows(fs: Seq<FunctionTime>, k: int)
    requires
        0 <= k <= fs.len(),
    ensures
        named_functions(fs.take(k)).len() <= named_functions(fs).len(),
        named_functions(fs).take(named_functions(fs.take(k)).len() as int) == named_functions(
            fs.take(k),
        ),
    decreases fs.len(),
{
    if k == fs.len() {
        assert(fs.take(k) =~= fs);
        assert(named_functions(fs).take(named_functions(fs).len() as int) =~= named_functions(fs));
    } else {
        let t = fs.drop_last();
        lemma_named_grows(t, k);
        assert(t.take(k) =~= fs.take(k));
        let n = named_functions(fs.take(k)).len() as int;
        assert(named_functions(fs).take(n) =~= named_functions(t).take(n));
    }
}

fn top_three(fs: &Vec<FunctionTime>) -> (r: Vec<NamedTime>)
    ensures
        named_view(r@) == first_three(named_functions(fs@)),
{
    let mut r: Vec<NamedTime> = Vec::new();
    let mut i: usize = 0;
    proof {
        assert(fs@.take(0) =~= Seq::<FunctionTime>::empty());
        assert(named_view(r@) =~= Seq::<(Seq<char>, i128)>::empty());
    }
    while i < fs.len() && r.len() < 3
        invariant
            i <= fs@.len(),
            r@.len() <= 3,
            named_view(r@) == named_functions(fs@.take(i as int)),
        decreases fs@.len() - i,
    {
        let f = &fs[i];
        let ghost before = r@;
        assert(fs@.take(i + 1).drop_last() =~= fs@.take(i as int));
        if !f.function_name.as_str().is_empty() {
            r.push((f.function_name.clone(), f.self_time));
            assert(named_view(r@) =~= named_view(before).push((f.function_name@, f.self_time)));
        }
        i = i + 1;
    }
    proof {
        lemma_named_grows(fs@, i as int);
        if i == fs@.len() {
            assert(fs@.take(i as int) =~= fs@);
        }
        assert(named_view(r@).len() == r@.len());
        assert(named_view(r@) =~= first_three(named_functions(fs@)));
    }
    r
}

/// What happened in a window.
pub struct WindowStats {
    pub frames: Spread,
    pub dropped: usize,
    pub run: i128,
    pub js: i128,
    pub gc: i128,
    pub gc_count: usize,
    pub long_count: usize,
    pub long: i128,
    pub cpu: i128,
    pub top_cpu: Vec<NamedTime>,
}

/// The samples of a window: their time, and the functions with most of it.
pub open spec fn samples_of(
    events: Seq<TraceEvent>,
    w: (i64, i64),
    cpu: i128,
    top_cpu: Seq<NamedTime>,
) -> bool {
    exists|nodes: ProfileNodes, times: ProfileSelfTimes, r: CpuProfileResult|
        {
            &&& nodes_of(events, events.len() as int, nodes)
            &&& times_of(events, None, Some(w), events.len() as int, times)
            &&& #[trigger] profile_result(nodes, times, r)
            &&& cpu == r.total_sample_time
            &&& named_view(top_cpu) == first_three(named_functions(r.functions@))
        }
}

/// What each field of the statistics says.
pub open spec fn stats_of(
    events: Seq<TraceEvent>,
    w: (i64, i64),
    frame_event: Seq<char>,
    tid: u64,
    limit: i64,
    s: WindowStats,
) -> bool {
    &&& spread_of(pairing(events, frame_event, Some(w)).durs, s.frames)
    &&& s.dropped == drops(events, window_scope(w))
    &&& s.run == total(events, named_time(w, tid, "RunTask"@))
    &&& s.js == total(events, named_time(w, tid, "FunctionCall"@))
    &&& s.gc == total(events, collect_time(w))
    &&& s.gc_count == total(events, collect_hit(w))
    &&& s.long_count == total(events, lasting_hit(w, tid, limit))
    &&& s.long == total(events, lasting_time(w, tid, limit))
    &&& samples_of(events, w, s.cpu, s.top_cpu@)
}

/// Figures whose differences can be computed.
pub open spec fn stats_fit(s: WindowStats) -> bool {
    &&& event_sum(s.run as int)
    &&& event_sum(s.js as int)
    &&& event_sum(s.gc as int)
    &&& event_sum(s.long as int)
    &&& 0 <= s.cpu
    &&& 0 <= s.frames.p50
    &&& 0 <= s.frames.p90
    &&& 0 <= s.frames.p99
    &&& 0 <= s.frames.max
}

fn window_stats(
    events: &[TraceEvent],
    w: (i64, i64),
    frame_event: &str,
    tid: u64,
    limit: i64,
    nodes: &ProfileNodes,
    times: &ProfileSelfTimes,
) -> (s: WindowStats)
    requires
        profile_fits(events@),
        nodes_of(events@, events@.len() as int, *nodes),
        times_of(events@, None, Some(w), events@.len() as int, *times),
    ensures
        stats_of(events@, w, frame_event@, tid, limit, s),
        stats_fit(s),
{
    let acc = sum_window(events, w, tid, limit);
    let durs = paired_durations(events, frame_event, Some(w));
    let frames = spread(&durs);
    let scope = Scope { window: Some(w), tid: None, pid: None, cat: None };
    let dropped = count_drops(events, &scope);
    proof {
        lemma_fits_sum(events@.len() as int, times.sum());
    }
    let r = build_cpu_profile_result(nodes, times);
    let top_cpu = top_three(&r.functions);
    proof {
        times.lemma_partial(*nodes, times.sampled().len() as int);
        assert(times.sampled().take(times.sampled().len() as int) =~= times.sampled());
        assert(samples_of(events@, w, r.total_sample_time, top_cpu@));
    }
    WindowStats {
        frames,
        dropped,
        run: acc.run,
        js: acc.js,
        gc: acc.gc,
        gc_count: acc.gc_count,
        long_count: acc.long_count,
        long: acc.long,
        cpu: r.total_sample_time,
        top_cpu,
    }
}

/// Statistics of the windows before, at and after the anchor. The samples of
/// all three come from one walk over the chunks.
pub fn delta_windows_stats(
    events: &[TraceEvent],
    pre: (i64, i64),
    shoot: (i64, i64),
    post: (i64, i64),
    frame_event: &str,
    limit: i64,
    main_tid: u64,
) -> (r: (WindowStats, WindowStats, WindowStats))
    requires
        profile_fits(events@),
    ensures
        stats_of(events@, pre, frame_event@, main_tid, limit, r.0),
        stats_of(events@, shoot, frame_event@, main_tid, limit, r.1),
        stats_of(events@, post, frame_event@, main_tid, limit, r.2),
        stats_fit(r.0),
        stats_fit(r.1),
        stats_fit(r.2),
{
    let windows: Vec<Option<(i64, i64)>> = vec![Some(pre), Some(shoot), Some(post)];
    let (nodes, times) = scan_profile_chunks_windows(events, None, &windows);
    let ghost ts = times@;
    proof {
        assert(windows@.len() == 3);
        assert(times_of(events@, None, windows@[0], events@.len() as int, ts[0]));
        assert(times_of(events@, None, windows@[1], events@.len() as int, ts[1]));
        assert(times_of(events@, None, windows@[2], events@.len() as int, ts[2]));
    }
    (
        window_stats(events, pre, frame_event, main_tid, limit, &nodes, &times[0]),
        window_stats(events, shoot, frame_event, main_tid, limit, &nodes, &times[1]),
        window_stats(events, post, frame_event, main_tid, limit, &nodes, &times[2]),
    )
}

/// The unit of a metric: a number of things, or a time.
#[derive(Clone, Copy, PartialEq, Eq, Structural)]
pub enum Unit {
    Count,
    Time,
}

/// One metric of the three windows: a count, or a time in nanoseconds.
pub struct DeltaRow {
    pub metric: String,
    pub unit: Unit,
    pub pre: i128,
    pub shoot: i128,
    pub post: i128,
}

impl DeltaRow {
    /// The differences can be computed.
    pub open spec fn fits(&self) -> bool {
        &&& i128::MIN <= self.shoot - self.pre <= i128::MAX
        &&& i128::MIN <= self.post - self.shoot <= i128::MAX
    }

    /// What the window at the anchor has over the one before it.
    pub fn delta_pre(&self) -> (r: i128)
        requires
            self.fits(),
        ensures
            r == self.shoot - self.pre,
    {
        self.shoot - self.pre
    }

    /// What the window after the anchor has over the one at it.
    pub fn delta_post(&self) -> (r: i128)
        requires
            self.fits(),
        ensures
            r == self.post - self.shoot,
    {
        self.post - self.shoot
    }
}

/// How many metrics there are.
pub const METRICS: usize = 13;

/// Figure `k` of a window.
pub open spec fn figure(s: WindowStats, k: int) -> int {
    if k == 0 {
        s.frames.count as int
    } else if k == 1 {
        s.frames.p50 as int
    } else if k == 2 {
        s.frames.p90 as int
    } else if k == 3 {
        s.frames.p99 as int
    } else if k == 4 {
        s.frames.max as int
    } else if k == 5 {
        s.dropped as int
    } else if k == 6 {
        s.long_count as int
    } else if k == 7 {
        s.long as int
    } else if k == 8 {
        s.run as int
    } else if k == 9 {
        s.js as int
    } else if k == 10 {
        s.gc as int
    } else if k == 11 {
        s.gc_count as int
    } else {
        s.cpu as int
    }
}

pub open spec fn metric_unit(k: int) -> Unit {
    if k == 0 || k == 5 || k == 6 || k == 11 {
        Unit::Count
    } else {
        Unit::Time
    }
}

/// A time in whole milliseconds, to the nearest, the even one of two.
pub open spec fn nearest_ms(t: nat) -> nat {
    let q = t / 1_000_000;
    let r = t % 1_000_000;
    if r > 500_000 || r == 500_000 && q % 2 == 1 {
        q + 1
    } else {
        q
    }
}

pub open spec fn limit_text(limit: int) -> Seq<char> {
    if limit < 0 {
        "-"@ + decimal(nearest_ms((-limit) as nat))
    } else {
        decimal(nearest_ms(limit as nat))
    }
}

pub open spec fn metric_name(k: int, limit: i64) -> Seq<char> {
    if k == 0 {
        "frames"@
    } else if k == 1 {
        "frame p50"@
    } else if k == 2 {
        "frame p90"@
    } else if k == 3 {
        "frame p99"@
    } else if k == 4 {
        "frame max"@
    } else if k == 5 {
        "dropped frames"@
    } else if k == 6 {
        "long tasks ≥"@ + limit_text(limit as int) + "ms"@
    } else if k == 7 {
        "long task time"@
    } else if k == 8 {
        "main busy (RunTask)"@
    } else if k == 9 {
        "JS (FunctionCall)"@
    } else if k == 10 {
        "GC (Major+Minor)"@
    } else if k == 11 {
        "GC count"@
    } else {
        "CPU samples"@
    }
}

fn make_limit_text(limit: i64) -> (r: String)
    ensures
        r@ == limit_text(limit as int),
{
    let t: u64 = if limit < 0 {
        (-(limit as i128)) as u64
    } else {
        limit as u64
    };
    let q: u64 = t / 1_000_000;
    let rest: u64 = t % 1_000_000;
    let m: u64 = if rest > 500_000 || rest == 500_000 && q % 2 == 1 {
        q + 1
    } else {
        q
    };
    let mut s = String::new();
    if limit < 0 {
        s.append("-");
    }
    s.append(u64_text(m).as_str());
    assert(s@ =~= limit_text(limit as int));
    s
}

fn make_metric_name(k: usize, limit: i64) -> (r: String)
    ensures
        r@ == metric_name(k as int, limit),
{
    if k == 6 {
        let mut s = String::new();
        s.append("long tasks ≥");
        s.append(make_limit_text(limit).as_str());
        s.append("ms");
        assert(s@ =~= metric_name(6, limit));
        return s;
    }
    let name = if k == 0 {
        "frames"
    } else if k == 1 {
        "frame p50"
    } else if k == 2 {
        "frame p90"
    } else if k == 3 {
        "frame p99"
    } else if k == 4 {
        "frame max"
    } else if k == 5 {
        "dropped frames"
    } else if k == 7 {
        "long task time"
    } else if k == 8 {
        "main busy (RunTask)"
    } else if k == 9 {
        "JS (FunctionCall)"
    } else if k == 10 {
        "GC (Major+Minor)"
    } else if k == 11 {
        "GC count"
    } else {
        "CPU samples"
    };
    name.to_owned()
}

fn figure_at(s: &WindowStats, k: usize) -> (r: i128)
    requires
        stats_fit(*s),
    ensures
        r == figure(*s, k as int),
        0 <= r || event_sum(r as int),
{
    if k == 0 {
        s.frames.count as i128
    } else if k == 1 {
        s.frames.p50
    } else if k == 2 {
        s.frames.p90
    } else if k == 3 {
        s.frames.p99
    } else if k == 4 {
        s.frames.max
    } else if k == 5 {
        s.dropped as i128
    } else if k == 6 {
        s.long_count as i128
    } else if k == 7 {
        s.long
    } else if k == 8 {
        s.run
    } else if k == 9 {
        s.js
    } else if k == 10 {
        s.gc
    } else if k == 11 {
        s.gc_count as i128
    } else {
        s.cpu
    }
}

/// Metric `k` of three windows.
pub open spec fn metric_row(
    k: int,
    limit: i64,
    a: WindowStats,
    b: WindowStats,
    c: WindowStats,
    r: DeltaRow,
) -> bool {
    &&& r.metric@ == metric_name(k, limit)
    &&& r.unit == metric_unit(k)
    &&& r.pre == figure(a, k)
    &&& r.shoot == figure(b, k)
    &&& r.post == figure(c, k)
}

/// Figures around an anchor.
pub struct DeltaData {
    pub rows: Vec<DeltaRow>,
    /// Functions with most self-time in the window before, at and after the
    /// anchor.
    pub top_cpu: (Vec<NamedTime>, Vec<NamedTime>, Vec<NamedTime>),
    pub anchor: i128,
    pub pre: (i64, i64),
    pub shoot: (i64, i64),
    pub post: (i64, i64),
}

pub open spec fn rows_fit(rows: Seq<DeltaRow>) -> bool {
    forall|k: int| 0 <= k < rows.len() ==> (#[trigger] rows[k]).fits()
}

/// What the rows say of three windows.
pub open spec fn metric_rows(
    limit: i64,
    a: WindowStats,
    b: WindowStats,
    c: WindowStats,
    rows: Seq<DeltaRow>,
) -> bool {
    &&& rows.len() == METRICS
    &&& forall|k: int| 0 <= k < METRICS ==> metric_row(k, limit, a, b, c, #[trigger] rows[k])
}

/// What the figures say.
pub open spec fn delta_of(
    events: Seq<TraceEvent>,
    frame_event: Seq<char>,
    limit: i64,
    d: DeltaData,
) -> bool {
    exists|tid: u64, a: WindowStats, b: WindowStats, c: WindowStats|
        {
            &&& #[trigger] is_main_thread(events, tid)
            &&& stats_of(events, d.pre, frame_event, tid, limit, a)
            &&& stats_of(events, d.shoot, frame_event, tid, limit, b)
            &&& stats_of(events, d.post, frame_event, tid, limit, c)
            &&& #[trigger] metric_rows(limit, a, b, c, d.rows@)
            &&& d.top_cpu == (a.top_cpu, b.top_cpu, c.top_cpu)
        }
}

/// The metrics of the windows before, at and after an anchor: frames, dropped
/// frames, long tasks, busy and script time, collections and CPU samples.
pub fn delta_data(
    events: &[TraceEvent],
    pre: (i64, i64),
    shoot: (i64, i64),
    post: (i64, i64),
    anchor: i128,
    frame_event: &str,
    limit: i64,
) -> (d: DeltaData)
    requires
        profile_fits(events@),
    ensures
        delta_of(events@, frame_event@, limit, d),
        d.anchor == anchor,
        d.pre == pre,
        d.shoot == shoot,
        d.post == post,
        rows_fit(d.rows@),
{
    let tid = detect_main_thread(events);
    let (a, b, c) = delta_windows_stats(events, pre, shoot, post, frame_event, limit, tid);
    let mut rows: Vec<DeltaRow> = Vec::new();
    let mut k: usize = 0;
    while k < METRICS
        invariant
            k <= METRICS,
            stats_fit(a),
            stats_fit(b),
            stats_fit(c),
            rows@.len() == k,
            forall|j: int| 0 <= j < k ==> metric_row(j, limit, a, b, c, #[trigger] rows@[j]),
            rows_fit(rows@),
        decreases METRICS - k,
    {
        let unit = if k == 0 || k == 5 || k == 6 || k == 11 {
            Unit::Count
        } else {
            Unit::Time
        };
        let row = DeltaRow {
            metric: make_metric_name(k, limit),
            unit,
            pre: figure_at(&a, k),
            shoot: figure_at(&b, k),
            post: figure_at(&c, k),
        };
        assert(row.fits());
        rows.push(row);
        k = k + 1;
    }
    let d = DeltaData { rows, top_cpu: (a.top_cpu, b.top_cpu, c.top_cpu), anchor, pre, shoot, post };
    assert(metric_rows(limit, a, b, c, d.rows@));
    assert(is_main_thread(events@, tid));
    d
}

/// From when to when a window lasts, counted from the start of the trace.
pub open spec fn span_pieces(w: (i64, i64), min_ts: i64) -> Seq<PieceView> {
    seq![ms(w.0 - min_ts), txt("ms … "@), ms(w.1 - min_ts)]
}

/// A figure of a row.
pub open spec fn cell(unit: Unit, v: int) -> PieceView {
    match unit {
        Unit::Count => PieceView::Number(ratio_num(v, 1, 1, 0, false)),
        Unit::Time => ms1(v),
    }
}

/// A difference, with its sign.
pub open spec fn delta_cell(unit: Unit, v: int) -> PieceView {
    match unit {
        Unit::Count => PieceView::Number(ratio_num(v, 1, 1, 0, true)),
        Unit::Time => PieceView::Number(ratio_num(v, 1_000_000, 1, 1, true)),
    }
}

pub open spec fn delta_row_pieces(r: DeltaRow) -> Seq<PieceView> {
    seq![
        txt("| "@),
        txt(r.metric@),
        txt(" | "@),
        cell(r.unit, r.pre as int),
        txt(" | "@),
        cell(r.unit, r.shoot as int),
        txt(" | "@),
        cell(r.unit, r.post as int),
        txt(" | "@),
        delta_cell(r.unit, r.shoot - r.pre),
        txt(" | "@),
        delta_cell(r.unit, r.post - r.shoot),
        txt(" |\n"@),
    ]
}

pub open spec fn delta_rows_pieces(rows: Seq<DeltaRow>) -> Seq<PieceView>
    decreases rows.len(),
{
    if rows.len() == 0 {
        Seq::empty()
    } else {
        delta_rows_pieces(rows.drop_last()) + delta_row_pieces(rows.last())
    }
}

/// A list of functions, told in one cell.
pub open spec fn function_list(top: Seq<(Seq<char>, i128)>) -> Seq<PieceView>
    decreases top.len(),
{
    if top.len() == 0 {
        Seq::empty()
    } else {
        let before = function_list(top.drop_last());
        (if top.len() == 1 {
            before
        } else {
            before.push(txt(", "@))
        }) + seq![
            txt(top.last().0),
            txt(" ("@),
            ms1(top.last().1 as int),
            txt("ms)"@),
        ]
    }
}

pub open spec fn top_row(label: Seq<char>, top: Seq<NamedTime>) -> Seq<PieceView> {
    seq![txt("| "@), txt(label), txt(" | "@)] + if top.len() == 0 {
        seq![txt("—"@)]
    } else {
        function_list(named_view(top))
    } + seq![txt(" |\n"@)]
}

/// The section on the three windows.
pub open spec fn delta_pieces(d: DeltaData, min_ts: i64) -> Seq<PieceView> {
    seq![txt("## Delta: PRE → SHOOT → POST\n\n- **SHOOT**: "@)] + span_pieces(d.shoot, min_ts)
        + seq![txt("ms from trace start\n- **PRE**:  "@)] + span_pieces(d.pre, min_ts)
        + seq![txt("ms\n- **POST**: "@)] + span_pieces(d.post, min_ts) + seq![
        txt(
            "ms\n\n| metric | PRE | SHOOT | POST | SHOOT−PRE | POST−SHOOT |\n|--------|-----|-------|------|-----------|------------|\n"@,
        ),
    ] + delta_rows_pieces(d.rows@) + seq![
        txt("\n| window | top CPU self-time |\n|--------|-------------------|\n"@),
    ] + top_row("PRE"@, d.top_cpu.0@) + top_row("SHOOT"@, d.top_cpu.1@) + top_row(
        "POST"@,
        d.top_cpu.2@,
    ) + seq![txt("\n"@)]
}

pub fn put_span(d: &mut Doc, w: (i64, i64), min_ts: i64)
    ensures
        doc_view(final(d)@) == doc_view(old(d)@) + span_pieces(w, min_ts),
{
    let ghost before = doc_view(d@);
    put_num(d, make_ms(w.0 as i128 - min_ts as i128));
    put(d, "ms … ");
    put_num(d, make_ms(w.1 as i128 - min_ts as i128));
    assert(doc_view(d@) =~= before + span_pieces(w, min_ts));
}

pub fn put_cell(d: &mut Doc, unit: Unit, v: i128)
    ensures
        doc_view(final(d)@) == doc_view(old(d)@).push(cell(unit, v as int)),
{
    match unit {
        Unit::Count => put_num(d, make_ratio(v, 1, 1, 0, false)),
        Unit::Time => put_num(d, make_ratio(v, 1_000_000, 1, 1, false)),
    }
}

pub fn put_delta_cell(d: &mut Doc, unit: Unit, v: i128)
    ensures
        doc_view(final(d)@) == doc_view(old(d)@).push(delta_cell(unit, v as int)),
{
    match unit {
        Unit::Count => put_num(d, make_ratio(v, 1, 1, 0, true)),
        Unit::Time => put_num(d, make_ratio(v, 1_000_000, 1, 1, true)),
    }
}

#[verifier::rlimit(30)]
fn put_delta_row(d: &mut Doc, r: &DeltaRow)
    requires
        r.fits(),
    ensures
        doc_view(final(d)@) == doc_view(old(d)@) + delta_row_pieces(*r),
{
    let ghost before = doc_view(d@);
    put(d, "| ");
    put(d, r.metric.as_str());
    put(d, " | ");
    put_cell(d, r.unit, r.pre);
    put(d, " | ");
    put_cell(d, r.unit, r.shoot);
    put(d, " | ");
    put_cell(d, r.unit, r.post);
    put(d, " | ");
    put_delta_cell(d, r.unit, r.delta_pre());
    put(d, " | ");
    put_delta_cell(d, r.unit, r.delta_post());
    put(d, " |\n");
    assert(doc_view(d@) =~= before + delta_row_pieces(*r));
}

fn put_delta_rows(d: &mut Doc, rows: &Vec<DeltaRow>)
    requires
        rows_fit(rows@),
    ensures
        doc_view(final(d)@) == doc_view(old(d)@) + delta_rows_pieces(rows@),
{
    let ghost before = doc_view(d@);
    let mut k: usize = 0;
    proof {
        assert(rows@.take(0) =~= Seq::<DeltaRow>::empty());
        assert(before + delta_rows_pieces(rows@.take(0)) =~= before);
    }
    while k < rows.len()
        invariant
            k <= rows@.len(),
            rows_fit(rows@),
            doc_view(d@) == before + delta_rows_pieces(rows@.take(k as int)),
        decreases rows@.len() - k,
    {
        let r = &rows[k];
        assert(rows@[k as int].fits());
        put_delta_row(d, r);
        proof {
            assert(rows@.take(k + 1).drop_last() =~= rows@.take(k as int));
            assert(doc_view(d@) =~= before + delta_rows_pieces(rows@.take(k + 1)));
        }
        k = k + 1;
    }
    assert(rows@.take(rows@.len() as int) =~= rows@);
}

#[verifier::rlimit(30)]
fn put_top_row(d: &mut Doc, label: &str, top: &Vec<NamedTime>)
    ensures
        doc_view(final(d)@) == doc_view(old(d)@) + top_row(label@, top@),
{
    let ghost start = doc_view(d@);
    put(d, "| ");
    put(d, label);
    put(d, " | ");
    if top.len() == 0 {
        put(d, "—");
    } else {
        let ghost before = doc_view(d@);
        let ghost all = named_view(top@);
        let mut k: usize = 0;
        proof {
            assert(all.take(0) =~= Seq::<(Seq<char>, i128)>::empty());
            assert(before + function_list(all.take(0)) =~= before);
        }
        while k < top.len()
            invariant
                k <= top@.len(),
                all == named_view(top@),
                doc_view(d@) == before + function_list(all.take(k as int)),
            decreases top@.len() - k,
        {
            if k > 0 {
                put(d, ", ");
            }
            put(d, top[k].0.as_str());
            put(d, " (");
            put_num(d, make_ratio(top[k].1, 1_000_000, 1, 1, false));
            put(d, "ms)");
            proof {
                assert(all.take(k + 1).drop_last() =~= all.take(k as int));
                assert(all[k as int] == (top@[k as int].0@, top@[k as int].1));
                assert(doc_view(d@) =~= before + function_list(all.take(k + 1)));
            }
            k = k + 1;
        }
        assert(all.take(top@.len() as int) =~= all);
    }
    put(d, " |\n");
    assert(doc_view(d@) =~= start + top_row(label@, top@));
}

/// Write the section on the three windows.
#[verifier::rlimit(30)]
pub fn delta_section_from_data(data: &DeltaData, min_ts: i64) -> (d: Doc)
    requires
        rows_fit(data.rows@),
    ensures
        doc_view(d@) == delta_pieces(*data, min_ts),
{
    let mut d: Doc = Vec::new();
    put(&mut d, "## Delta: PRE → SHOOT → POST\n\n- **SHOOT**: ");
    put_span(&mut d, data.shoot, min_ts);
    put(&mut d, "ms from trace start\n- **PRE**:  ");
    put_span(&mut d, data.pre, min_ts);
    put(&mut d, "ms\n- **POST**: ");
    put_span(&mut d, data.post, min_ts);
    put(
        &mut d,
        "ms\n\n| metric | PRE | SHOOT | POST | SHOOT−PRE | POST−SHOOT |\n|--------|-----|-------|------|-----------|------------|\n",
    );
    put_delta_rows(&mut d, &data.rows);
    put(&mut d, "\n| window | top CPU self-time |\n|--------|-------------------|\n");
    put_top_row(&mut d, "PRE", &data.top_cpu.0);
    put_top_row(&mut d, "SHOOT", &data.top_cpu.1);
    put_top_row(&mut d, "POST", &data.top_cpu.2);
    put(&mut d, "\n");
    assert(doc_view(d@) =~= delta_pieces(*data, min_ts));
    d
}

/// Compare the windows before, at and after an anchor, with the section that
/// tells it.
pub fn delta_section(
    events: &[TraceEvent],
    pre: (i64, i64),
    shoot: (i64, i64),
    post: (i64, i64),
    anchor: i128,
    frame_event: &str,
    limit: i64,
    min_ts: i64,
) -> (r: (Doc, DeltaData))
    requires
        profile_fits(events@),
    ensures
        delta_of(events@, frame_event@, limit, r.1),
        r.1.anchor == anchor,
        r.1.pre == pre,
        r.1.shoot == shoot,
        r.1.post == post,
        rows_fit(r.1.rows@),
        doc_view(r.0@) == delta_pieces(r.1, min_ts),
{
    let data = delta_data(events, pre, shoot, post, anchor, frame_event, limit);
    (delta_section_from_data(&data, min_ts), data)
}

/// A list has one percentile.
proof fn lemma_percentile_unique(durs: Seq<i128>, pct: int, v: int, w: int)
    requires
        percentile(durs, pct, v),
        percentile(durs, pct, w),
    ensures
        v == w,
{
    if durs.len() > 0 {
        let k = percentile_index(durs.len() as int, pct);
        let p = choose|p: Seq<usize>| #[trigger] orders(durs, false, p) && v == durs[p[k] as int];
        let q = choose|p: Seq<usize>| #[trigger] orders(durs, false, p) && w == durs[p[k] as int];
        lemma_order_unique(durs, false, p, q);
    }
}

/// Two tables with the same self-times have the same sum.
proof fn lemma_sum_unique(a: ProfileSelfTimes, b: ProfileSelfTimes)
    requires
        a.wf(),
        b.wf(),
        forall|id: u64| #[trigger] a.time(id) == b.time(id),
    ensures
        a.sum() <= b.sum(),
{
    let ids = a.sampled();
    assert(distinct_ids(ids)) by {
        assert forall|i: int, j: int| 0 <= i < j < ids.len() implies (#[trigger] ids[i]) != (
        #[trigger] ids[j]) by {
            a.lemma_listed(i);
        }
    }
    b.lemma_distinct_sum(ids);
    assert(time_by_id(a) =~= time_by_id(b));
    a.lemma_partial(arbitrary(), ids.len() as int);
}

/// The figures of a window are determined by the trace: every statistics of
/// one window tell the same.
pub proof fn lemma_window_figures(
    events: Seq<TraceEvent>,
    w: (i64, i64),
    frame_event: Seq<char>,
    tid: u64,
    limit: i64,
    a: WindowStats,
    b: WindowStats,
    k: int,
)
    requires
        stats_of(events, w, frame_event, tid, limit, a),
        stats_of(events, w, frame_event, tid, limit, b),
    ensures
        figure(a, k) == figure(b, k),
{
    let durs = pairing(events, frame_event, Some(w)).durs;
    lemma_percentile_unique(durs, 50, a.frames.p50 as int, b.frames.p50 as int);
    lemma_percentile_unique(durs, 90, a.frames.p90 as int, b.frames.p90 as int);
    lemma_percentile_unique(durs, 99, a.frames.p99 as int, b.frames.p99 as int);
    lemma_percentile_unique(durs, 100, a.frames.max as int, b.frames.max as int);
    lemma_samples_unique(events, w, a.cpu, a.top_cpu@, b.cpu, b.top_cpu@);
    lemma_samples_unique(events, w, b.cpu, b.top_cpu@, a.cpu, a.top_cpu@);
}

proof fn lemma_samples_unique(
    events: Seq<TraceEvent>,
    w: (i64, i64),
    cpu: i128,
    top: Seq<NamedTime>,
    cpu2: i128,
    top2: Seq<NamedTime>,
)
    requires
        samples_of(events, w, cpu, top),
        samples_of(events, w, cpu2, top2),
    ensures
        cpu <= cpu2,
{
    let n = events.len() as int;
    let (nodes, t, r) = choose|nodes: ProfileNodes, t: ProfileSelfTimes, r: CpuProfileResult|
        {
            &&& nodes_of(events, n, nodes)
            &&& times_of(events, None, Some(w), n, t)
            &&& #[trigger] profile_result(nodes, t, r)
            &&& cpu == r.total_sample_time
            &&& named_view(top) == first_three(named_functions(r.functions@))
        };
    let (nodes2, t2, r2) = choose|nodes: ProfileNodes, t: ProfileSelfTimes, r: CpuProfileResult|
        {
            &&& nodes_of(events, n, nodes)
            &&& times_of(events, None, Some(w), n, t)
            &&& #[trigger] profile_result(nodes, t, r)
            &&& cpu2 == r.total_sample_time
            &&& named_view(top2) == first_three(named_functions(r.functions@))
        };
    assert forall|id: u64| #[trigger] t.time(id) == t2.time(id) by {
        assert(t2.time(id) == t2.time(id));
    }
    lemma_sum_unique(t, t2);
    t.lemma_partial(nodes, t.sampled().len() as int);
    t2.lemma_partial(nodes2, t2.sampled().len() as int);
}

/// A window compared with itself shows no difference.
pub proof fn lemma_same_window(
    events: Seq<TraceEvent>,
    frame_event: Seq<char>,
    limit: i64,
    d: DeltaData,
    k: int,
)
    requires
        delta_of(events, frame_event, limit, d),
        d.pre == d.shoot,
        0 <= k < METRICS,
    ensures
        d.rows@[k].shoot - d.rows@[k].pre == 0,
{
    let (tid, a, b, c) = choose|tid: u64, a: WindowStats, b: WindowStats, c: WindowStats|
        {
            &&& #[trigger] is_main_thread(events, tid)
            &&& stats_of(events, d.pre, frame_event, tid, limit, a)
            &&& stats_of(events, d.shoot, frame_event, tid, limit, b)
            &&& stats_of(events, d.post, frame_event, tid, limit, c)
            &&& #[trigger] metric_rows(limit, a, b, c, d.rows@)
            &&& d.top_cpu == (a.top_cpu, b.top_cpu, c.top_cpu)
        };
    assert(metric_row(k, limit, a, b, c, d.rows@[k]));
    lemma_window_figures(events, d.pre, frame_event, tid, limit, a, b, k);
}

} // verus!
