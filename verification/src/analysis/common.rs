//! Sums, ratios and the time-ordered list of a thread's complete events.

use vstd::prelude::*;
use crate::sort::{comes_before, holds, lemma_order_unique, order, orders};
use crate::trace::event::TraceEvent;
use crate::trace::meta::PH_COMPLETE;

verus! {

/// The quotient of two integers; zero when the denominator is zero.
#[derive(Clone, Copy)]
pub struct Ratio {
    pub num: i128,
    pub den: i128,
}

/// The sum of `f` over a list.
pub open spec fn total<T>(s: Seq<T>, f: spec_fn(T) -> int) -> int
    decreases s.len(),
{
    if s.len() == 0 {
        0
    } else {
        total(s.drop_last(), f) + f(s.last())
    }
}

/// A bound on what one time contributes to a sum.
pub const TICK_BOUND: i128 = 0x8000_0000_0000_0000;

/// What each item contributes is a time.
pub open spec fn ticks_valued<T>(f: spec_fn(T) -> int) -> bool {
    forall|e: T| -TICK_BOUND <= #[trigger] f(e) <= TICK_BOUND
}

/// A sum of times is bounded by their number.
pub proof fn lemma_total_bound<T>(s: Seq<T>, f: spec_fn(T) -> int)
    requires
        ticks_valued(f),
    ensures
        -TICK_BOUND * s.len() <= total(s, f) <= TICK_BOUND * s.len(),
    decreases s.len(),
{
    if s.len() > 0 {
        lemma_total_bound(s.drop_last(), f);
        assert(-TICK_BOUND <= f(s.last()) <= TICK_BOUND);
    }
}

/// A sum of bounded figures is bounded by their number.
pub proof fn lemma_total_bound_by<T>(s: Seq<T>, f: spec_fn(T) -> int, b: int)
    requires
        forall|i: int| 0 <= i < s.len() ==> -b <= f(#[trigger] s[i]) <= b,
    ensures
        -b * s.len() <= total(s, f) <= b * s.len(),
    decreases s.len(),
{
    if s.len() > 0 {
        let t = s.drop_last();
        assert forall|i: int| 0 <= i < t.len() implies -b <= f(#[trigger] t[i]) <= b by {
            assert(t[i] == s[i]);
        }
        lemma_total_bound_by(t, f, b);
        assert(b * s.len() == b * t.len() + b) by (nonlinear_arith)
            requires
                s.len() == t.len() + 1,
        ;
        assert(-b * s.len() == -b * t.len() - b) by (nonlinear_arith)
            requires
                s.len() == t.len() + 1,
        ;
    } else {
        assert(b * s.len() == 0 && -b * s.len() == 0) by (nonlinear_arith)
            requires
                s.len() == 0,
        ;
    }
}

/// One more item.
pub proof fn lemma_total_step<T>(s: Seq<T>, f: spec_fn(T) -> int, i: int)
    requires
        0 <= i < s.len(),
    ensures
        total(s.take(i + 1), f) == total(s.take(i), f) + f(s[i]),
{
    assert(s.take(i + 1).drop_last() =~= s.take(i));
}

/// Items that contribute nothing can be passed over.
pub proof fn lemma_total_skip<T>(s: Seq<T>, f: spec_fn(T) -> int, a: int, b: int)
    requires
        0 <= a <= b <= s.len(),
        forall|j: int| a <= j < b ==> f(#[trigger] s[j]) == 0,
    ensures
        total(s.take(b), f) == total(s.take(a), f),
    decreases b - a,
{
    if a < b {
        lemma_total_skip(s, f, a, b - 1);
        lemma_total_step(s, f, b - 1);
    }
}

/// The duration of an event, zero where it has none.
pub open spec fn dur_of(e: TraceEvent) -> int {
    match e.dur {
        Some(d) => d as int,
        None => 0,
    }
}

/// When an event ends.
pub open spec fn end_of(e: TraceEvent) -> int {
    e.ts + dur_of(e)
}

/// The duration of an event, zero where it has none.
pub fn dur_or_zero(e: &TraceEvent) -> (r: i64)
    ensures
        r == dur_of(*e),
{
    match e.dur {
        Some(d) => d,
        None => 0,
    }
}

/// When an event ends.
pub fn end_time(e: &TraceEvent) -> (r: i128)
    ensures
        r == end_of(*e),
{
    e.ts as i128 + dur_or_zero(e) as i128
}

/// A complete event of the thread.
pub open spec fn on_thread(e: TraceEvent, tid: u64) -> bool {
    e.tid == tid && e.ph == PH_COMPLETE
}

/// Event `a` comes before event `b`: by time, then by place in the trace.
pub open spec fn earlier(events: Seq<TraceEvent>, a: int, b: int) -> bool {
    events[a].ts < events[b].ts || events[a].ts == events[b].ts && a < b
}

/// `p` lists the complete events of a thread in the order of their times.
pub open spec fn in_time_order(events: Seq<TraceEvent>, tid: u64, p: Seq<usize>) -> bool {
    &&& forall|i: int|
        0 <= i < p.len() ==> (#[trigger] p[i]) < events.len() && on_thread(events[p[i] as int], tid)
    &&& forall|i: int, j: int|
        0 <= i < j < p.len() ==> earlier(events, #[trigger] p[i] as int, #[trigger] p[j] as int)
    &&& forall|x: int|
        0 <= x < events.len() && on_thread(#[trigger] events[x], tid) ==> holds(p, x)
}

/// The complete events of a thread in the order of their times.
pub fn time_ordered(events: &[TraceEvent], tid: u64) -> (p: Vec<usize>)
    ensures
        in_time_order(events@, tid, p@),
        p@.len() <= events@.len(),
{
    let n = events.len();
    let mut sel: Vec<usize> = Vec::new();
    let mut keys: Vec<i128> = Vec::new();
    let mut i: usize = 0;
    while i < n
        invariant
            n == events@.len(),
            i <= n,
            keys@.len() == sel@.len(),
            sel@.len() <= i,
            forall|k: int|
                0 <= k < sel@.len() ==> (#[trigger] sel@[k]) < i && on_thread(
                    events@[sel@[k] as int],
                    tid,
                ) && keys@[k] == events@[sel@[k] as int].ts,
            forall|k: int, l: int| 0 <= k < l < sel@.len() ==> (#[trigger] sel@[k]) < (#[trigger] sel@[l]),
            forall|x: int| 0 <= x < i && on_thread(#[trigger] events@[x], tid) ==> holds(sel@, x),
        decreases n - i,
    {
        let e = &events[i];
        let ghost before = sel@;
        if e.tid == tid && e.ph == PH_COMPLETE {
            sel.push(i);
            keys.push(e.ts as i128);
            proof {
                assert(sel@[before.len() as int] == i);
                assert forall|x: int| #[trigger] holds(before, x) implies holds(sel@, x) by {
                    let w = choose|w: int| 0 <= w < before.len() && #[trigger] before[w] == x;
                    assert(sel@[w] == x);
                }
            }
        }
        i = i + 1;
    }
    let q = order(&keys, false);
    let mut p: Vec<usize> = Vec::new();
    let mut k: usize = 0;
    while k < q.len()
        invariant
            k <= q@.len(),
            keys@.len() == sel@.len(),
            orders(keys@, false, q@),
            p@.len() == k,
            forall|j: int| 0 <= j < k ==> (#[trigger] p@[j]) == sel@[q@[j] as int],
        decreases q@.len() - k,
    {
        let pos = q[k];
        p.push(sel[pos]);
        k = k + 1;
    }
    proof {
        assert forall|a: int, b: int| 0 <= a < b < p@.len() implies earlier(
            events@,
            #[trigger] p@[a] as int,
            #[trigger] p@[b] as int,
        ) by {
            assert(comes_before(keys@, false, q@[a] as int, q@[b] as int));
            let sa = sel@[q@[a] as int];
            let sb = sel@[q@[b] as int];
        }
        assert forall|x: int| 0 <= x < n && on_thread(#[trigger] events@[x], tid) implies holds(
            p@,
            x,
        ) by {
            assert(holds(sel@, x));
            let w = choose|w: int| 0 <= w < sel@.len() && #[trigger] sel@[w] == x;
            assert(holds(q@, w));
            let v = choose|v: int| 0 <= v < q@.len() && #[trigger] q@[v] == w;
            assert(p@[v] == x);
        }
        assert forall|a: int| 0 <= a < p@.len() implies (#[trigger] p@[a]) < events@.len()
            && on_thread(events@[p@[a] as int], tid) by {
            let sa = sel@[q@[a] as int];
        }
    }
    p
}

/// Position of a percentile in a sorted list of `n`: the nearest to that share
/// of the last position, halves up.
pub open spec fn percentile_index(n: int, pct: int) -> int {
    (pct * (n - 1) + 50) / 100
}

/// The percentile of a list of durations; zero for an empty list.
pub open spec fn percentile(durs: Seq<i128>, pct: int, v: int) -> bool {
    if durs.len() == 0 {
        v == 0
    } else {
        exists|p: Seq<usize>| #[trigger]
            orders(durs, false, p) && v == durs[p[percentile_index(durs.len() as int, pct)] as int]
    }
}

/// A percentile of a list, given its ascending order.
pub fn find_percentile(durs: &Vec<i128>, p: &Vec<usize>, pct: usize) -> (r: i128)
    requires
        orders(durs@, false, p@),
        pct <= 100,
    ensures
        percentile(durs@, pct as int, r as int),
        durs@.len() == 0 ==> r == 0,
        durs@.len() > 0 ==> durs@.contains(r),
{
    let n = durs.len();
    if n == 0 {
        return 0;
    }
    proof {
        assert(0 <= pct as int * (n - 1) <= 100 * (n - 1)) by (nonlinear_arith)
            requires
                pct <= 100,
                n >= 1,
        ;
    }
    let k: u128 = (pct as u128 * (n as u128 - 1) + 50) / 100;
    let slot = p[k as usize];
    assert(durs@[slot as int] == durs[slot as int]);
    durs[slot]
}

/// A higher percentile is no smaller.
pub proof fn lemma_percentiles_ascend(durs: Seq<i128>, p: int, q: int, v: int, w: int)
    requires
        0 <= p <= q <= 100,
        percentile(durs, p, v),
        percentile(durs, q, w),
    ensures
        v <= w,
{
    if durs.len() > 0 {
        let n = durs.len() as int;
        let a = percentile_index(n, p);
        let b = percentile_index(n, q);
        assert(0 <= p * (n - 1) <= q * (n - 1) <= 100 * (n - 1)) by (nonlinear_arith)
            requires
                0 <= p <= q <= 100,
                n >= 1,
        ;
        assert(0 <= a <= b < n);
        let x = choose|x: Seq<usize>| #[trigger] orders(durs, false, x) && v == durs[x[a] as int];
        let y = choose|x: Seq<usize>| #[trigger] orders(durs, false, x) && w == durs[x[b] as int];
        lemma_order_unique(durs, false, x, y);
        if a < b {
            assert(comes_before(durs, false, x[a] as int, x[b] as int));
        }
    }
}

} // verus!
