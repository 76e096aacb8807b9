//! How busy the trace is over time, in buckets.

use vstd::prelude::*;
use crate::analysis::common::{dur_of, dur_or_zero, end_of, end_time, lemma_total_bound, ticks_valued, total};
use crate::analysis::summary::first_ts;
use crate::doc::{doc_view, make_ms, make_ratio, put, put_num, put_u64, ratio_num, Doc, PieceView};
use crate::render::{ms, put_window_block, txt, window_block, window_label, window_word};
use crate::scope::{allows, Scope};
use crate::text::{decimal, same};
use crate::trace::event::TraceEvent;
use crate::trace::meta::is_metadata_event;

verus! {

/// When the trace starts: at the earliest event that is no metadata, at zero
/// where there is none.
pub open spec fn trace_start(events: Seq<TraceEvent>) -> int {
    match first_ts(events) {
        Some(t) => t,
        None => 0,
    }
}

/// When the trace starts.
pub fn trace_start_us(events: &[TraceEvent]) -> (r: i64)
    ensures
        r == trace_start(events@),
{
    let mut first: Option<i64> = None;
    let mut i: usize = 0;
    assert(events@.take(0) =~= Seq::<TraceEvent>::empty());
    while i < events.len()
        invariant
            i <= events@.len(),
            match first {
                Some(t) => first_ts(events@.take(i as int)) == Some(t as int),
                None => first_ts(events@.take(i as int)) is None,
            },
        decreases events@.len() - i,
    {
        let e = &events[i];
        assert(events@.take(i + 1).drop_last() =~= events@.take(i as int));
        if !is_metadata_event(e) {
            first = match first {
                Some(t) => Some(
                    if e.ts < t {
                        e.ts
                    } else {
                        t
                    },
                ),
                None => Some(e.ts),
            };
        }
        i = i + 1;
    }
    assert(events@.take(events@.len() as int) =~= events@);
    match first {
        Some(t) => t,
        None => 0,
    }
}

/// When the last event ends; not before the zero of the clock.
pub open spec fn trace_end(events: Seq<TraceEvent>) -> int
    decreases events.len(),
{
    if events.len() == 0 {
        0
    } else {
        let before = trace_end(events.drop_last());
        let end = end_of(events.last());
        if end > before {
            end
        } else {
            before
        }
    }
}

/// When the last event ends.
pub fn trace_end_us(events: &[TraceEvent]) -> (r: i128)
    ensures
        r == trace_end(events@),
        0 <= r <= 0xffff_ffff_ffff_ffff,
{
    let mut end: i128 = 0;
    let mut i: usize = 0;
    assert(events@.take(0) =~= Seq::<TraceEvent>::empty());
    while i < events.len()
        invariant
            i <= events@.len(),
            end == trace_end(events@.take(i as int)),
            0 <= end <= 0xffff_ffff_ffff_ffff,
        decreases events@.len() - i,
    {
        assert(events@.take(i + 1).drop_last() =~= events@.take(i as int));
        let e = end_time(&events[i]);
        if e > end {
            end = e;
        }
        i = i + 1;
    }
    assert(events@.take(events@.len() as int) =~= events@);
    end
}

/// No range has more buckets than this.
pub const BUCKETS: u64 = 0x100_0000_0000_0000;

/// A range of time cut into buckets.
#[derive(Clone, Copy)]
pub struct Plan {
    pub start: i128,
    pub end: i128,
    /// What a bucket is said to last.
    pub told: i128,
    /// What a bucket lasts.
    pub bucket: i128,
    pub count: u64,
}

/// What a bucket lasts where nothing else is asked for: a fortieth of the
/// range in whole milliseconds, between 10 and 500 of them.
pub open spec fn usual_bucket(span: int) -> int {
    let m = (span + 20_000_000) / 40_000_000;
    if m < 10 {
        10_000_000
    } else if m > 500 {
        500_000_000
    } else {
        m * 1_000_000
    }
}

/// The range of the window, or of the whole trace.
pub open spec fn range_of(events: Seq<TraceEvent>, window: Option<(i64, i64)>, min_ts: i64) -> (int, int) {
    match window {
        Some((lo, hi)) => (lo as int, hi as int),
        None => (min_ts as int, trace_end(events)),
    }
}

/// The buckets of a range; none where it is empty. A bucket lasts a
/// microsecond at least, and the last one may reach beyond the range.
pub open spec fn plan_of(range: (int, int), asked: Option<i64>, p: Option<Plan>) -> bool {
    let span = range.1 - range.0;
    match p {
        None => span <= 0,
        Some(p) => {
            &&& span > 0
            &&& p.start == range.0
            &&& p.end == range.1
            &&& p.told == (match asked {
                Some(b) => b as int,
                None => usual_bucket(span),
            })
            &&& p.bucket == (if p.told < 1000 {
                1000
            } else {
                p.told as int
            })
            &&& p.count == (span + p.bucket - 1) / (p.bucket as int)
        },
    }
}

/// Cut the range of a scope into buckets.
pub fn plan_timeline(events: &[TraceEvent], window: Option<(i64, i64)>, asked: Option<i64>, min_ts: i64) -> (r:
    Option<Plan>)
    ensures
        plan_of(range_of(events@, window, min_ts), asked, r),
        r matches Some(p) ==> 0 < p.count <= BUCKETS,
{
    let (start, end): (i128, i128) = match window {
        Some((lo, hi)) => (lo as i128, hi as i128),
        None => (min_ts as i128, trace_end_us(events)),
    };
    if end <= start {
        return None;
    }
    let span: i128 = end - start;
    let told: i128 = match asked {
        Some(b) => b as i128,
        None => {
            let m: i128 = (span + 20_000_000) / 40_000_000;
            if m < 10 {
                10_000_000
            } else if m > 500 {
                500_000_000
            } else {
                m * 1_000_000
            }
        },
    };
    let bucket: i128 = if told < 1000 {
        1000
    } else {
        told
    };
    let count: i128 = (span + bucket - 1) / bucket;
    proof {
        let s = span as int;
        let b = bucket as int;
        assert(0 < (s + b - 1) / b <= s) by (nonlinear_arith)
            requires
                0 < s,
                0 < b,
        ;
        assert((s + b - 1) / b <= (s + b - 1) / 1000) by (nonlinear_arith)
            requires
                0 < s,
                1000 <= b,
        ;
    }
    Some(Plan { start, end, told, bucket, count: count as u64 })
}

/// The event starts in bucket `i`.
pub open spec fn in_bucket(e: TraceEvent, scope: Scope, p: Plan, i: int) -> bool {
    allows(scope, e) && p.start <= e.ts <= p.end && (e.ts - p.start) / (p.bucket as int) == i
}

pub open spec fn bucket_hit(scope: Scope, p: Plan, i: int) -> spec_fn(TraceEvent) -> int {
    |e: TraceEvent|
        if in_bucket(e, scope, p, i) {
            1
        } else {
            0
        }
}

pub open spec fn bucket_run(scope: Scope, p: Plan, i: int) -> spec_fn(TraceEvent) -> int {
    |e: TraceEvent|
        if in_bucket(e, scope, p, i) && e.name@ == "RunTask"@ {
            dur_of(e)
        } else {
            0
        }
}

/// A bucket: the time in tasks that start in it, and how many events do.
#[derive(Clone, Copy)]
pub struct Bucket {
    pub run: i128,
    pub events: usize,
}

pub open spec fn bucket_of(events: Seq<TraceEvent>, scope: Scope, p: Plan, i: int, b: Bucket) -> bool {
    b.run == total(events, bucket_run(scope, p, i)) && b.events == total(
        events,
        bucket_hit(scope, p, i),
    )
}

/// The buckets of a range.
pub open spec fn buckets_of(events: Seq<TraceEvent>, scope: Scope, p: Plan, rows: Seq<Bucket>) -> bool {
    &&& rows.len() == p.count
    &&& forall|i: int| 0 <= i < rows.len() ==> bucket_of(events, scope, p, i, #[trigger] rows[i])
}

proof fn lemma_bucket_hits(events: Seq<TraceEvent>, scope: Scope, p: Plan, i: int)
    ensures
        0 <= total(events, bucket_hit(scope, p, i)) <= events.len(),
    decreases events.len(),
{
    if events.len() > 0 {
        lemma_bucket_hits(events.drop_last(), scope, p, i);
    }
}

/// Fill the buckets.
pub fn fill_buckets(events: &[TraceEvent], scope: &Scope, p: Plan) -> (rows: Vec<Bucket>)
    requires
        p.count <= usize::MAX,
        p.bucket > 0,
        i64::MIN <= p.start <= i64::MAX,
    ensures
        buckets_of(events@, *scope, p, rows@),
{
    let n = events.len();
    let mut rows: Vec<Bucket> = Vec::new();
    let mut k: usize = 0;
    while k < p.count as usize
        invariant
            k <= p.count <= usize::MAX,
            rows@.len() == k,
            forall|i: int| 0 <= i < k ==> #[trigger] rows@[i] == (Bucket { run: 0, events: 0 }),
        decreases p.count - k,
    {
        rows.push(Bucket { run: 0, events: 0 });
        k = k + 1;
    }
    let mut j: usize = 0;
    assert(events@.take(0) =~= Seq::<TraceEvent>::empty());
    while j < n
        invariant
            n == events@.len(),
            j <= n,
            p.count <= usize::MAX,
            p.bucket > 0,
            i64::MIN <= p.start <= i64::MAX,
            buckets_of(events@.take(j as int), *scope, p, rows@),
        decreases n - j,
    {
        let e = &events[j];
        let ghost seen = events@.take(j as int);
        let ghost more = events@.take(j + 1);
        let ghost before = rows@;
        proof {
            assert(more.drop_last() =~= seen);
            assert(more.last() == *e);
        }
        let ts = e.ts as i128;
        if p.start <= ts && ts <= p.end && scope.allows_event(e) {
            let at: i128 = (ts - p.start) / p.bucket;
            proof {
                let a = ts - p.start;
                let b = p.bucket as int;
                assert(0 <= a / b <= a) by (nonlinear_arith)
                    requires
                        0 <= a,
                        b > 0,
                ;
            }
            if at < p.count as i128 {
                let i = at as usize;
                let x = rows[i];
                proof {
                    assert(bucket_of(seen, *scope, p, i as int, rows@[i as int]));
                    lemma_bucket_hits(seen, *scope, p, i as int);
                    assert(ticks_valued(bucket_run(*scope, p, i as int)));
                    lemma_total_bound(seen, bucket_run(*scope, p, i as int));
                }
                let d: i128 = if same(e.name.as_str(), "RunTask") {
                    dur_or_zero(e) as i128
                } else {
                    0
                };
                rows.set(i, Bucket { run: x.run + d, events: x.events + 1 });
            }
        }
        proof {
            assert forall|i: int| 0 <= i < rows@.len() implies bucket_of(
                more,
                *scope,
                p,
                i,
                #[trigger] rows@[i],
            ) by {
                assert(bucket_of(seen, *scope, p, i, before[i]));
            }
        }
        j = j + 1;
    }
    assert(events@.take(n as int) =~= events@);
    rows
}

/// Number of blocks in a bar.
pub const BAR: usize = 24;

/// How much of the bucket is taken by tasks, not more than all of it.
pub open spec fn taken(run: int, bucket: int) -> int {
    if run > bucket {
        bucket
    } else {
        run
    }
}

/// Number of full blocks, to the nearest.
pub open spec fn full_blocks(run: int, bucket: int) -> int {
    if run <= 0 {
        0
    } else {
        (2 * BAR * taken(run, bucket) + bucket) / (2 * bucket)
    }
}

pub open spec fn bar(full: int) -> Seq<char> {
    Seq::new(
        BAR as nat,
        |i: int|
            if i < full {
                '█'
            } else {
                '░'
            },
    )
}

fn make_bar(full: usize) -> (r: String)
    ensures
        r@ == bar(full as int),
{
    let mut s = String::new();
    let mut i: usize = 0;
    assert(s@ =~= bar(full as int).take(0));
    while i < BAR
        invariant
            i <= BAR,
            s@ == bar(full as int).take(i as int),
        decreases BAR - i,
    {
        if i < full {
            s.push('█');
        } else {
            s.push('░');
        }
        assert(s@ =~= bar(full as int).take(i + 1));
        i = i + 1;
    }
    assert(bar(full as int).take(BAR as int) =~= bar(full as int));
    s
}

/// Row `i` of the timeline.
pub open spec fn bucket_pieces(b: Bucket, p: Plan, i: int, min_ts: i64) -> Seq<PieceView> {
    seq![
        txt("| "@),
        txt(decimal((i + 1) as nat)),
        txt(" | "@),
        PieceView::Number(ratio_num(p.start - min_ts + i * p.told, 1_000_000, 1, 0, false)),
        txt(" | "@),
        ms(b.run as int),
        txt(" | "@),
        txt(bar(full_blocks(b.run as int, p.bucket as int))),
        txt(" "@),
        PieceView::Number(
            ratio_num(taken(b.run as int, p.bucket as int), p.bucket as int, 100, 0, false),
        ),
        txt("% | "@),
        txt(decimal(b.events as nat)),
        txt(" |\n"@),
    ]
}

pub open spec fn buckets_pieces(rows: Seq<Bucket>, p: Plan, min_ts: i64, n: int) -> Seq<PieceView>
    decreases n,
{
    if n <= 0 {
        Seq::empty()
    } else {
        buckets_pieces(rows, p, min_ts, n - 1) + bucket_pieces(rows[n - 1], p, n - 1, min_ts)
    }
}

/// The section on the timeline.
pub open spec fn timeline_pieces(
    rows: Seq<Bucket>,
    plan: Option<Plan>,
    window: Option<(i64, i64)>,
    min_ts: i64,
) -> Seq<PieceView> {
    match plan {
        None => seq![txt("_Empty trace range._\n\n"@)],
        Some(p) => seq![
            txt("## Timeline ("@),
            txt(decimal(p.count as nat)),
            txt(" buckets × "@),
            PieceView::Number(ratio_num(p.told as int, 1_000_000, 1, 0, false)),
            txt("ms, "@),
            txt(window_word(window)),
            txt(")\n\n"@),
        ] + window_block(window, min_ts) + seq![
            txt(
                "| # | t(ms) | runtask(ms) | busy | events |\n|---|-------|-------------|------|--------|\n"@,
            ),
        ] + buckets_pieces(rows, p, min_ts, rows.len() as int) + seq![txt("\n"@)],
    }
}

#[verifier::rlimit(30)]
fn put_bucket(d: &mut Doc, b: Bucket, p: Plan, i: usize, min_ts: i64)
    requires
        i64::MIN <= p.start <= i64::MAX,
        i64::MIN <= p.told <= i64::MAX,
        0 < p.bucket <= i64::MAX,
        i < BUCKETS,
    ensures
        doc_view(final(d)@) == doc_view(old(d)@) + bucket_pieces(b, p, i as int, min_ts),
{
    let ghost before = doc_view(d@);
    let used: i128 = if b.run > p.bucket {
        p.bucket
    } else {
        b.run
    };
    let full: i128 = if b.run <= 0 {
        0
    } else {
        (48 * used + p.bucket) / (2 * p.bucket)
    };
    proof {
        assert(BAR == 24);
        if b.run > 0 {
            let u = used as int;
            let w = p.bucket as int;
            assert(0 <= (2 * 24 * u + w) / (2 * w) <= 25) by (nonlinear_arith)
                requires
                    0 < u <= w,
            ;
        }
        let k = i as int;
        let t = p.told as int;
        assert(-0x8000_0000_0000_0000 * 0x100_0000_0000_0000 <= k * t <= 0x8000_0000_0000_0000
            * 0x100_0000_0000_0000) by (nonlinear_arith)
            requires
                0 <= k <= 0x100_0000_0000_0000,
                -0x8000_0000_0000_0000 <= t <= 0x7fff_ffff_ffff_ffff,
        ;
    }
    put(d, "| ");
    put_u64(d, i as u64 + 1);
    put(d, " | ");
    put_num(
        d,
        make_ratio(p.start - min_ts as i128 + i as i128 * p.told, 1_000_000, 1, 0, false),
    );
    put(d, " | ");
    put_num(d, make_ms(b.run));
    put(d, " | ");
    put(d, make_bar(full as usize).as_str());
    put(d, " ");
    put_num(d, make_ratio(used, p.bucket, 100, 0, false));
    put(d, "% | ");
    put_u64(d, b.events as u64);
    put(d, " |\n");
    assert(doc_view(d@) =~= before + bucket_pieces(b, p, i as int, min_ts));
}

/// Write the section on the timeline.
#[verifier::rlimit(30)]
pub fn timeline_doc(rows: &Vec<Bucket>, plan: Option<Plan>, window: Option<(i64, i64)>, min_ts: i64) -> (d: Doc)
    requires
        plan matches Some(p) ==> i64::MIN <= p.start <= i64::MAX && i64::MIN <= p.told <= i64::MAX
            && 0 < p.bucket <= i64::MAX,
        rows@.len() <= BUCKETS,
    ensures
        doc_view(d@) == timeline_pieces(rows@, plan, window, min_ts),
{
    let mut d: Doc = Vec::new();
    match plan {
        None => {
            put(&mut d, "_Empty trace range._\n\n");
        },
        Some(p) => {
            put(&mut d, "## Timeline (");
            put_u64(&mut d, p.count);
            put(&mut d, " buckets × ");
            put_num(&mut d, make_ratio(p.told, 1_000_000, 1, 0, false));
            put(&mut d, "ms, ");
            put(&mut d, window_label(window));
            put(&mut d, ")\n\n");
            put_window_block(&mut d, window, min_ts);
            put(
                &mut d,
                "| # | t(ms) | runtask(ms) | busy | events |\n|---|-------|-------------|------|--------|\n",
            );
            let ghost head = doc_view(d@);
            let n = rows.len();
            let mut k: usize = 0;
            assert(head + buckets_pieces(rows@, p, min_ts, 0) =~= head);
            while k < n
                invariant
                    n == rows@.len(),
                    n <= BUCKETS,
                    k <= n,
                    i64::MIN <= p.start <= i64::MAX,
                    i64::MIN <= p.told <= i64::MAX,
                    0 < p.bucket <= i64::MAX,
                    doc_view(d@) == head + buckets_pieces(rows@, p, min_ts, k as int),
                decreases n - k,
            {
                put_bucket(&mut d, rows[k], p, k, min_ts);
                assert(doc_view(d@) =~= head + buckets_pieces(rows@, p, min_ts, k + 1));
                k = k + 1;
            }
            put(&mut d, "\n");
        },
    }
    assert(doc_view(d@) =~= timeline_pieces(rows@, plan, window, min_ts));
    d
}

/// The timeline of a scope.
pub struct Timeline {
    pub plan: Option<Plan>,
    pub rows: Vec<Bucket>,
}

/// What the timeline says.
pub open spec fn timeline_of(
    events: Seq<TraceEvent>,
    scope: Scope,
    asked: Option<i64>,
    min_ts: i64,
    t: Timeline,
) -> bool {
    &&& plan_of(range_of(events, scope.window, min_ts), asked, t.plan)
    &&& match t.plan {
        Some(p) => buckets_of(events, scope, p, t.rows@),
        None => t.rows@.len() == 0,
    }
}

/// The buckets of the timeline are so few that a list can hold them.
pub open spec fn timeline_fits(
    events: Seq<TraceEvent>,
    window: Option<(i64, i64)>,
    asked: Option<i64>,
    min_ts: i64,
) -> bool {
    forall|p: Plan| #[trigger]
        plan_of(range_of(events, window, min_ts), asked, Some(p)) ==> p.count <= usize::MAX
}

/// Whether the buckets of the timeline are so few that a list can hold them.
pub fn check_timeline(
    events: &[TraceEvent],
    window: Option<(i64, i64)>,
    asked: Option<i64>,
    min_ts: i64,
) -> (r: bool)
    ensures
        r == timeline_fits(events@, window, asked, min_ts),
{
    match plan_timeline(events, window, asked, min_ts) {
        Some(p) => {
            assert(plan_of(range_of(events@, window, min_ts), asked, Some(p)));
            p.count <= usize::MAX as u64
        },
        None => true,
    }
}

/// Time in tasks and number of events over time, and the section that tells
/// them.
pub fn timeline_section(events: &[TraceEvent], scope: &Scope, bucket: Option<i64>, min_ts: i64) -> (r: (
    Doc,
    Timeline,
))
    requires
        timeline_fits(events@, scope.window, bucket, min_ts),
    ensures
        timeline_of(events@, *scope, bucket, min_ts, r.1),
        doc_view(r.0@) == timeline_pieces(r.1.rows@, r.1.plan, scope.window, min_ts),
{
    let plan = plan_timeline(events, scope.window, bucket, min_ts);
    let rows = match plan {
        Some(p) => {
            assert(plan_of(range_of(events@, scope.window, min_ts), bucket, Some(p)));
            fill_buckets(events, scope, p)
        },
        None => Vec::new(),
    };
    let d = timeline_doc(&rows, plan, scope.window, min_ts);
    (d, Timeline { plan, rows })
}

} // verus!
