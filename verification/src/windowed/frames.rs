//! Frame statistics: durations of paired begin and end events, dropped frames.

use vstd::prelude::*;
use crate::analysis::common::{find_percentile, lemma_total_step, percentile, total};
use crate::doc::{doc_view, make_ms, make_ratio, put, put_num, put_u64, ratio_num, Doc, PieceView};
use crate::render::{ms, put_window, txt, window_label, window_pieces, window_word};
use crate::scope::{allows, is_in_window, time_in, Scope};
use crate::sort::order;
use crate::text::{decimal, same};
use crate::trace::event::TraceEvent;

verus! {

/// Phases of paired events, `b` and `e`.
pub const PH_BEGIN: u8 = 98;

pub const PH_END: u8 = 101;

/// Position of the last open begin of a thread.
pub open spec fn last_open(open: Seq<(u64, i64)>, tid: u64) -> Option<int>
    decreases open.len(),
{
    if open.len() == 0 {
        None
    } else if open.last().0 == tid {
        Some(open.len() - 1)
    } else {
        last_open(open.drop_last(), tid)
    }
}

/// What is known while events are paired: the begins without an end, and the
/// durations found.
pub struct Pairing {
    pub open: Seq<(u64, i64)>,
    pub durs: Seq<i128>,
}

/// One more event: a begin is kept, an end closes the last begin of its thread.
pub open spec fn pair_step(p: Pairing, e: TraceEvent, name: Seq<char>, window: Option<(i64, i64)>) -> Pairing {
    if e.name@ != name || !time_in(window, e.ts as int) {
        p
    } else if e.ph == PH_BEGIN {
        Pairing { open: p.open.push((e.tid, e.ts)), ..p }
    } else if e.ph == PH_END {
        match last_open(p.open, e.tid) {
            Some(k) => Pairing {
                open: p.open.remove(k),
                durs: if e.ts > p.open[k].1 {
                    p.durs.push((e.ts - p.open[k].1) as i128)
                } else {
                    p.durs
                },
            },
            None => p,
        }
    } else {
        p
    }
}

/// The pairing of the first events.
pub open spec fn pairing(events: Seq<TraceEvent>, name: Seq<char>, window: Option<(i64, i64)>) -> Pairing
    decreases events.len(),
{
    if events.len() == 0 {
        Pairing { open: Seq::empty(), durs: Seq::empty() }
    } else {
        pair_step(pairing(events.drop_last(), name, window), events.last(), name, window)
    }
}

fn find_open(open: &Vec<(u64, i64)>, tid: u64) -> (r: Option<usize>)
    ensures
        match r {
            Some(k) => last_open(open@, tid) == Some(k as int) && k < open@.len(),
            None => last_open(open@, tid) is None,
        },
{
    let mut i: usize = open.len();
    assert(open@.take(open@.len() as int) =~= open@);
    while i > 0
        invariant
            i <= open@.len(),
            last_open(open@, tid) == last_open(open@.take(i as int), tid),
        decreases i,
    {
        assert(open@.take(i as int).drop_last() =~= open@.take(i - 1));
        if open[i - 1].0 == tid {
            return Some(i - 1);
        }
        i = i - 1;
    }
    None
}

/// A duration between two times.
pub open spec fn is_span(d: i128) -> bool {
    0 < d <= u64::MAX
}

/// Pair begin and end events of one name and thread; an end closes the last
/// begin. Events outside the window do not count.
pub fn paired_durations(events: &[TraceEvent], name: &str, window: Option<(i64, i64)>) -> (r: Vec<i128>)
    ensures
        r@ == pairing(events@, name@, window).durs,
        r@.len() <= events@.len(),
        forall|i: int| 0 <= i < r@.len() ==> is_span(#[trigger] r@[i]),
{
    let n = events.len();
    let mut open: Vec<(u64, i64)> = Vec::new();
    let mut durs: Vec<i128> = Vec::new();
    let mut i: usize = 0;
    assert(events@.take(0) =~= Seq::<TraceEvent>::empty());
    while i < n
        invariant
            n == events@.len(),
            i <= n,
            open@ == pairing(events@.take(i as int), name@, window).open,
            durs@ == pairing(events@.take(i as int), name@, window).durs,
            durs@.len() <= i,
            forall|k: int| 0 <= k < durs@.len() ==> is_span(#[trigger] durs@[k]),
        decreases n - i,
    {
        let e = &events[i];
        assert(events@.take(i + 1).drop_last() =~= events@.take(i as int));
        if is_in_window(window, e.ts as i128) && same(e.name.as_str(), name) {
            if e.ph == PH_BEGIN {
                open.push((e.tid, e.ts));
            } else if e.ph == PH_END {
                if let Some(k) = find_open(&open, e.tid) {
                    let (_tid, start) = open.remove(k);
                    if e.ts > start {
                        durs.push(e.ts as i128 - start as i128);
                    }
                }
            }
        }
        i = i + 1;
    }
    assert(events@.take(n as int) =~= events@);
    durs
}

/// Statistics of durations.
pub struct Spread {
    pub count: usize,
    pub sum: i128,
    pub p50: i128,
    pub p90: i128,
    pub p99: i128,
    pub max: i128,
}

pub open spec fn self_value(d: i128) -> int {
    d as int
}

/// What the statistics say of the durations.
pub open spec fn spread_of(durs: Seq<i128>, s: Spread) -> bool {
    &&& s.count == durs.len()
    &&& s.sum == total(durs, |d: i128| self_value(d))
    &&& percentile(durs, 50, s.p50 as int)
    &&& percentile(durs, 90, s.p90 as int)
    &&& percentile(durs, 99, s.p99 as int)
    &&& percentile(durs, 100, s.max as int)
}

/// Statistics of durations.
pub fn spread(durs: &Vec<i128>) -> (s: Spread)
    requires
        durs@.len() <= u32::MAX,
        forall|i: int| 0 <= i < durs@.len() ==> is_span(#[trigger] durs@[i]),
    ensures
        spread_of(durs@, s),
        s.sum >= 0,
{
    let ghost f = |d: i128| self_value(d);
    let mut sum: i128 = 0;
    let mut i: usize = 0;
    assert(durs@.take(0) =~= Seq::<i128>::empty());
    while i < durs.len()
        invariant
            i <= durs@.len() <= u32::MAX,
            f == (|d: i128| self_value(d)),
            forall|k: int| 0 <= k < durs@.len() ==> is_span(#[trigger] durs@[k]),
            sum == total(durs@.take(i as int), f),
            0 <= sum <= i * u64::MAX,
        decreases durs@.len() - i,
    {
        proof {
            lemma_total_step(durs@, f, i as int);
            assert(is_span(durs@[i as int]));
        }
        sum = sum + durs[i];
        i = i + 1;
    }
    assert(durs@.take(durs@.len() as int) =~= durs@);
    let p = order(durs, false);
    Spread {
        count: durs.len(),
        sum,
        p50: find_percentile(durs, &p, 50),
        p90: find_percentile(durs, &p, 90),
        p99: find_percentile(durs, &p, 99),
        max: find_percentile(durs, &p, 100),
    }
}

/// A dropped frame that the scope holds.
pub open spec fn is_drop(e: TraceEvent, scope: Scope) -> bool {
    e.name@ == "DroppedFrame"@ && allows(scope, e)
}

/// Number of dropped frames that the scope holds.
pub open spec fn drops(events: Seq<TraceEvent>, scope: Scope) -> nat
    decreases events.len(),
{
    if events.len() == 0 {
        0
    } else {
        drops(events.drop_last(), scope) + if is_drop(events.last(), scope) {
            1nat
        } else {
            0nat
        }
    }
}

/// Count the dropped frames that the scope holds.
pub fn count_drops(events: &[TraceEvent], scope: &Scope) -> (r: usize)
    ensures
        r == drops(events@, *scope),
{
    let n = events.len();
    let mut count: usize = 0;
    let mut i: usize = 0;
    assert(events@.take(0) =~= Seq::<TraceEvent>::empty());
    while i < n
        invariant
            n == events@.len(),
            i <= n,
            count <= i,
            count == drops(events@.take(i as int), *scope),
        decreases n - i,
    {
        let e = &events[i];
        assert(events@.take(i + 1).drop_last() =~= events@.take(i as int));
        if same(e.name.as_str(), "DroppedFrame") && scope.allows_event(e) {
            count = count + 1;
        }
        i = i + 1;
    }
    assert(events@.take(n as int) =~= events@);
    count
}

/// Frame statistics.
pub struct FrameStats {
    pub spread: Spread,
    pub dropped: usize,
}

/// What the frame statistics say.
pub open spec fn frames_of(events: Seq<TraceEvent>, scope: Scope, name: Seq<char>, s: FrameStats) -> bool {
    spread_of(pairing(events, name, scope.window).durs, s.spread) && s.dropped == drops(events, scope)
}

/// Frame statistics of a scope.
pub fn frame_stats(events: &[TraceEvent], scope: &Scope, frame_event: &str) -> (s: FrameStats)
    requires
        events@.len() <= u32::MAX,
    ensures
        frames_of(events@, *scope, frame_event@, s),
        s.spread.sum >= 0,
{
    let durs = paired_durations(events, frame_event, scope.window);
    FrameStats { spread: spread(&durs), dropped: count_drops(events, scope) }
}

/// The average of the durations, in milliseconds with two decimals.
pub open spec fn avg_ms(sum: int, count: int) -> PieceView {
    PieceView::Number(ratio_num(sum, count * 1_000_000, 1, 2, false))
}

/// The section on frames.
pub open spec fn frames_pieces(
    s: FrameStats,
    frame_event: Seq<char>,
    window: Option<(i64, i64)>,
    min_ts: i64,
) -> Seq<PieceView> {
    let x = s.spread;
    seq![
        txt("## Frames: "@),
        txt(frame_event),
        txt(" ("@),
        txt(decimal(x.count as nat)),
        txt(" paired, "@),
        txt(window_word(window)),
        txt(")\n\n"@),
    ] + window_pieces(window, min_ts) + seq![
        txt("- **Dropped frames**: "@),
        txt(decimal(s.dropped as nat)),
        txt("\n\n| count | avg(ms) | p50 | p90 | p99 | max |\n|-------|---------|-----|-----|-----|-----|\n| "@),
        txt(decimal(x.count as nat)),
        txt(" | "@),
        avg_ms(x.sum as int, x.count as int),
        txt(" | "@),
        ms(x.p50 as int),
        txt(" | "@),
        ms(x.p90 as int),
        txt(" | "@),
        ms(x.p99 as int),
        txt(" | "@),
        ms(x.max as int),
        txt(" |\n\n"@),
    ]
}

/// Write the section on frames.
#[verifier::rlimit(30)]
pub fn frames_doc(s: &FrameStats, frame_event: &str, window: Option<(i64, i64)>, min_ts: i64) -> (d: Doc)
    ensures
        doc_view(d@) == frames_pieces(*s, frame_event@, window, min_ts),
{
    let x = &s.spread;
    let mut d: Doc = Vec::new();
    put(&mut d, "## Frames: ");
    put(&mut d, frame_event);
    put(&mut d, " (");
    put_u64(&mut d, x.count as u64);
    put(&mut d, " paired, ");
    put(&mut d, window_label(window));
    put(&mut d, ")\n\n");
    let ghost head = doc_view(d@);
    put_window(&mut d, window, min_ts);
    let ghost mid = doc_view(d@);
    put(&mut d, "- **Dropped frames**: ");
    put_u64(&mut d, s.dropped as u64);
    put(
        &mut d,
        "\n\n| count | avg(ms) | p50 | p90 | p99 | max |\n|-------|---------|-----|-----|-----|-----|\n| ",
    );
    put_u64(&mut d, x.count as u64);
    put(&mut d, " | ");
    put_num(&mut d, make_ratio(x.sum, x.count as i128 * 1_000_000, 1, 2, false));
    put(&mut d, " | ");
    put_num(&mut d, make_ms(x.p50));
    put(&mut d, " | ");
    put_num(&mut d, make_ms(x.p90));
    put(&mut d, " | ");
    put_num(&mut d, make_ms(x.p99));
    put(&mut d, " | ");
    put_num(&mut d, make_ms(x.max));
    put(&mut d, " |\n\n");
    assert(doc_view(d@) =~= frames_pieces(*s, frame_event@, window, min_ts));
    d
}

/// Per-frame duration statistics and dropped frames within a scope, with the
/// section that tells them.
pub fn frames_section(events: &[TraceEvent], scope: &Scope, frame_event: &str, min_ts: i64) -> (r: (
    Doc,
    FrameStats,
))
    requires
        events@.len() <= u32::MAX,
    ensures
        frames_of(events@, *scope, frame_event@, r.1),
        doc_view(r.0@) == frames_pieces(r.1, frame_event@, scope.window, min_ts),
{
    let s = frame_stats(events, scope, frame_event);
    (frames_doc(&s, frame_event, scope.window, min_ts), s)
}

} // verus!
