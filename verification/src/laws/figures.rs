//! Percentiles of frames, the functions of a window, rounded limits, ratios and
//! the places of points in a chart.

use vstd::prelude::*;
use crate::analysis::cpu::{FunctionTime, CpuProfileResult, ProfileNodes, ProfileSelfTimes};
use crate::analysis::layout::{dirty_ratios, LayoutDirtyEntry};
use crate::analysis::scroll::{frame_durs, scroll_of, ScrollFrameResult};
use crate::analysis::style::{element_counts, style_entries, style_entry, style_of, StyleRecalcResult};
use crate::chart::{height, x_num, y_num, Frame};
use crate::doc::{ratio_num, PieceView};
use crate::laws::lists::{below, lemma_percentile_rank, up_to};
use crate::sort::orders;
use crate::text::decimal;
use crate::trace::event::TraceEvent;
use crate::windowed::delta::{first_three, metric_name, named_functions, named_view, nearest_ms, samples_of, NamedTime};

verus! {

/// The rank that lies the given share of the way from the first of `n` to the
/// last, to the nearest.
pub open spec fn rank_at(n: nat, pct: int, rank: int) -> bool {
    100 * rank <= pct * (n - 1) + 50 && pct * (n - 1) + 50 < 100 * rank + 100
}

/// The percentiles of the frames are durations of frames, with as many shorter
/// ones as their share says.
pub proof fn lemma_frame_percentiles(
    events: Seq<TraceEvent>,
    tid: u64,
    r: ScrollFrameResult,
    a: int,
    b: int,
    c: int,
)
    requires
        scroll_of(events, tid, r),
        r.tasks@.len() > 0,
        rank_at(r.tasks@.len(), 50, a),
        rank_at(r.tasks@.len(), 90, b),
        rank_at(r.tasks@.len(), 99, c),
    ensures
        frame_durs(r.tasks@).len() == r.tasks@.len(),
        forall|i: int| 0 <= i < r.tasks@.len() ==> #[trigger] frame_durs(r.tasks@)[i] == r.tasks@[i].dur,
        below(frame_durs(r.tasks@), r.percentiles.p50 as int) <= a < up_to(
            frame_durs(r.tasks@),
            r.percentiles.p50 as int,
        ),
        below(frame_durs(r.tasks@), r.percentiles.p90 as int) <= b < up_to(
            frame_durs(r.tasks@),
            r.percentiles.p90 as int,
        ),
        below(frame_durs(r.tasks@), r.percentiles.p99 as int) <= c < up_to(
            frame_durs(r.tasks@),
            r.percentiles.p99 as int,
        ),
{
    let durs = frame_durs(r.tasks@);
    lemma_percentile_rank(durs, 50, r.percentiles.p50 as int, a);
    lemma_percentile_rank(durs, 90, r.percentiles.p90 as int, b);
    lemma_percentile_rank(durs, 99, r.percentiles.p99 as int, c);
}

proof fn lemma_named(fs: Seq<FunctionTime>)
    ensures
        forall|k: int|
            0 <= k < named_functions(fs).len() ==> (#[trigger] named_functions(fs)[k]).0.len() > 0 && exists|i: int|
                0 <= i < fs.len() && (#[trigger] fs[i]).function_name@ == named_functions(fs)[k].0 && fs[i].self_time
                    == named_functions(fs)[k].1,
        forall|i: int|
            0 <= i < fs.len() && (#[trigger] fs[i]).function_name@.len() > 0 ==> named_functions(fs).contains(
                (fs[i].function_name@, fs[i].self_time),
            ),
    decreases fs.len(),
{
    if fs.len() > 0 {
        let t = fs.drop_last();
        lemma_named(t);
        let before = named_functions(t);
        let all = named_functions(fs);
        assert forall|k: int| 0 <= k < all.len() implies (#[trigger] all[k]).0.len() > 0 && exists|i: int|
            0 <= i < fs.len() && (#[trigger] fs[i]).function_name@ == all[k].0 && fs[i].self_time == all[k].1 by {
            if k < before.len() {
                assert(all[k] == before[k]);
                let i = choose|i: int|
                    0 <= i < t.len() && (#[trigger] t[i]).function_name@ == before[k].0 && t[i].self_time == before[k].1;
                assert(fs[i] == t[i]);
            } else {
                assert(fs[fs.len() - 1].function_name@ == all[k].0);
            }
        }
        assert forall|i: int| 0 <= i < fs.len() && (#[trigger] fs[i]).function_name@.len() > 0 implies all.contains(
            (fs[i].function_name@, fs[i].self_time),
        ) by {
            if i < t.len() {
                assert(t[i] == fs[i]);
                let w = choose|w: int|
                    0 <= w < before.len() && before[w] == (t[i].function_name@, t[i].self_time);
                assert(all[w] == before[w]);
            } else {
                assert(all[before.len() as int] == (fs[i].function_name@, fs[i].self_time));
            }
        }
    }
}

/// The functions told of a window: three at most, each with a name and with the
/// time that the profile of the window gives it; where there are fewer, every
/// function with a name is told.
pub proof fn lemma_window_functions(events: Seq<TraceEvent>, w: (i64, i64), cpu: i128, top: Seq<NamedTime>) -> (r:
    CpuProfileResult)
    requires
        samples_of(events, w, cpu, top),
    ensures
        cpu == r.total_sample_time,
        top.len() <= 3,
        forall|k: int|
            0 <= k < top.len() ==> (#[trigger] top[k]).0@.len() > 0 && exists|i: int|
                0 <= i < r.functions@.len() && (#[trigger] r.functions@[i]).function_name@ == top[k].0@
                    && r.functions@[i].self_time == top[k].1,
        top.len() < 3 ==> forall|i: int|
            0 <= i < r.functions@.len() && (#[trigger] r.functions@[i]).function_name@.len() > 0 ==> exists|k: int|
                0 <= k < top.len() && (#[trigger] top[k]).0@ == r.functions@[i].function_name@ && top[k].1
                    == r.functions@[i].self_time,
{
    let (nodes, times, r) = choose|nodes: ProfileNodes, times: ProfileSelfTimes, r: CpuProfileResult|
        {
            &&& crate::analysis::cpu::nodes_of(events, events.len() as int, nodes)
            &&& crate::analysis::cpu::times_of(events, None, Some(w), events.len() as int, times)
            &&& #[trigger] crate::analysis::cpu::profile_result(nodes, times, r)
            &&& cpu == r.total_sample_time
            &&& named_view(top) == first_three(named_functions(r.functions@))
        };
    let all = named_functions(r.functions@);
    let seen = named_view(top);
    lemma_named(r.functions@);
    assert(seen.len() == top.len());
    assert forall|k: int| 0 <= k < top.len() implies (#[trigger] top[k]).0@.len() > 0 && exists|i: int|
        0 <= i < r.functions@.len() && (#[trigger] r.functions@[i]).function_name@ == top[k].0@
            && r.functions@[i].self_time == top[k].1 by {
        assert(seen[k] == (top[k].0@, top[k].1));
        assert(seen[k] == all[k]);
    }
    if top.len() < 3 {
        assert forall|i: int| 0 <= i < r.functions@.len() && (#[trigger] r.functions@[i]).function_name@.len() > 0
            implies exists|k: int|
            0 <= k < top.len() && (#[trigger] top[k]).0@ == r.functions@[i].function_name@ && top[k].1
                == r.functions@[i].self_time by {
            let x = (r.functions@[i].function_name@, r.functions@[i].self_time);
            assert(all.contains(x));
            let k = choose|k: int| 0 <= k < all.len() && all[k] == x;
            assert(seen[k] == (top[k].0@, top[k].1));
        }
    }
    r
}

/// A limit is named in whole milliseconds, to the nearest and the even one of
/// two.
pub proof fn lemma_limit_named(limit: i64)
    requires
        limit >= 0,
    ensures
        1_000_000 * nearest_ms(limit as nat) - 500_000 <= limit <= 1_000_000 * nearest_ms(limit as nat) + 500_000,
        limit % 1_000_000 == 500_000 ==> nearest_ms(limit as nat) % 2 == 0,
        metric_name(6, limit) == "long tasks ≥"@ + decimal(nearest_ms(limit as nat)) + "ms"@,
{
}

/// The ratios of layouts: one for each with objects, the dirty ones over all,
/// and none for others.
pub proof fn lemma_ratios(s: Seq<LayoutDirtyEntry>)
    ensures
        forall|k: int| 0 <= k < dirty_ratios(s).len() ==> (#[trigger] dirty_ratios(s)[k]).den > 0 && exists|i: int|
            0 <= i < s.len() && (#[trigger] s[i]).total_count == dirty_ratios(s)[k].den && s[i].dirty_count
                == dirty_ratios(s)[k].num,
        forall|i: int|
            0 <= i < s.len() && (#[trigger] s[i]).total_count > 0 ==> exists|k: int|
                0 <= k < dirty_ratios(s).len() && (#[trigger] dirty_ratios(s)[k]).num == s[i].dirty_count
                    && dirty_ratios(s)[k].den == s[i].total_count,
    decreases s.len(),
{
    if s.len() > 0 {
        let t = s.drop_last();
        lemma_ratios(t);
        let before = dirty_ratios(t);
        let all = dirty_ratios(s);
        assert forall|k: int| 0 <= k < all.len() implies (#[trigger] all[k]).den > 0 && exists|i: int|
            0 <= i < s.len() && (#[trigger] s[i]).total_count == all[k].den && s[i].dirty_count == all[k].num by {
            if k < before.len() {
                assert(all[k] == before[k]);
                let i = choose|i: int|
                    0 <= i < t.len() && (#[trigger] t[i]).total_count == before[k].den && t[i].dirty_count
                        == before[k].num;
                assert(s[i] == t[i]);
            } else {
                assert(s[s.len() - 1].total_count == all[k].den);
            }
        }
        assert forall|i: int| 0 <= i < s.len() && (#[trigger] s[i]).total_count > 0 implies exists|k: int|
            0 <= k < all.len() && (#[trigger] all[k]).num == s[i].dirty_count && all[k].den == s[i].total_count by {
            if i < t.len() {
                assert(t[i] == s[i]);
                let k = choose|k: int|
                    0 <= k < before.len() && (#[trigger] before[k]).num == t[i].dirty_count && before[k].den
                        == t[i].total_count;
                assert(all[k] == before[k]);
            } else {
                assert(all[before.len() as int].num == s[i].dirty_count);
            }
        }
    }
}

proof fn lemma_style_some(events: Seq<TraceEvent>, tid: u64)
    ensures
        forall|i: int|
            0 <= i < style_entries(events, tid).len() ==> (#[trigger] style_entries(events, tid)[i]).element_count > 0,
    decreases events.len(),
{
    if events.len() > 0 {
        let before = style_entries(events.drop_last(), tid);
        lemma_style_some(events.drop_last(), tid);
        let all = style_entries(events, tid);
        assert(style_entry(events.last(), tid) matches Some(x) ==> x.element_count > 0);
        assert forall|i: int| 0 <= i < all.len() implies (#[trigger] all[i]).element_count > 0 by {
            if i < before.len() {
                assert(all[i] == before[i]);
            }
        }
    }
}

/// A style recalculation that looks at no element is not told, and the count is
/// that of those that are.
pub proof fn lemma_style_counts(events: Seq<TraceEvent>, tid: u64, r: StyleRecalcResult)
    requires
        style_of(events, tid, r),
    ensures
        r.total_count == r.entries@.len(),
        forall|i: int| 0 <= i < r.entries@.len() ==> (#[trigger] r.entries@[i]).element_count > 0,
{
    let s = style_entries(events, tid);
    lemma_style_some(events, tid);
    let p = choose|p: Seq<usize>|
        {
            &&& #[trigger] orders(element_counts(s), true, p)
            &&& r.entries@.len() == p.len()
            &&& forall|i: int| 0 <= i < r.entries@.len() ==> #[trigger] r.entries@[i] == s[p[i] as int]
        };
    assert(element_counts(s).len() == s.len());
    assert forall|i: int| 0 <= i < r.entries@.len() implies (#[trigger] r.entries@[i]).element_count > 0 by {
        assert(r.entries@[i] == s[p[i] as int]);
    }
}

/// Points of a chart that lasts: the first stands at the left edge and the last
/// at the right, and of two points the larger stands higher.
pub proof fn lemma_chart_places(f: Frame, a: i64, b: i64)
    requires
        f.x0 < f.x1,
        f.low < f.high,
        f.low <= a,
        a < b,
        b <= f.high,
    ensures
        x_num(f, f.x0) matches PieceView::Number(n) && n.num == 64 * n.den && n.den > 0 && !n.neg,
        x_num(f, f.x1) matches PieceView::Number(n) && n.num == 984 * n.den && n.den > 0 && !n.neg,
        y_num(f, a) matches PieceView::Number(n) && (y_num(f, b) matches PieceView::Number(m) && !n.neg && !m.neg
            && n.den == m.den && n.den > 0 && m.num < n.num),
{
    let w = f.x1 - f.x0;
    assert(920 * (f.x1 - f.x0) + 64 * w == 984 * w);
    let h = f.high - f.low;
    assert(height(f) == h);
    let na = 14 * 22 * h + 216 * (20 * (f.high - a) + h);
    let nb = 14 * 22 * h + 216 * (20 * (f.high - b) + h);
    let (da, db) = (f.high - a, f.high - b);
    assert(14 * 22 * h + 216 * (20 * da + h) == 524 * h + 4320 * da) by (nonlinear_arith);
    assert(14 * 22 * h + 216 * (20 * db + h) == 524 * h + 4320 * db) by (nonlinear_arith);
    assert(0 <= db < da <= h && h <= 0xffff_ffff_ffff_ffff);
    assert(0 < nb < na);
    assert(y_num(f, a) == PieceView::Number(ratio_num(na, 22 * h, 1, 2, false)));
    assert(y_num(f, b) == PieceView::Number(ratio_num(nb, 22 * h, 1, 2, false)));
}

} // verus!
