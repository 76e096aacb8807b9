//! The report on a trace: all its analyses, and the comparison with another.

use vstd::prelude::*;
use crate::analysis::compare::{
    all_changes,
    analyze_compare,
    by_severity,
    check_counts,
    check_frames,
    check_summary,
    check_times,
    finding_views,
    frames_fit,
    holds_scroll,
    func_rows,
    ratio_fits,
    rows_of,
    summary_fits,
    times_fit,
    CompareResult,
};
use crate::analysis::cpu::{
    analyze_cpu_profile_full,
    cache_of,
    profile_fits,
    profile_result,
    CpuProfileCache,
    CpuProfileResult,
};
use crate::analysis::jank::{analyze_jank, jank_of, JankResult};
use crate::analysis::layout::{analyze_layout_dirty, layout_dirty_of, LayoutDirtyResult};
use crate::analysis::reflow::{analyze_forced_reflows, reflows_of, ForcedReflowResult};
use crate::analysis::scroll::{analyze_scroll_frames, scroll_of, ScrollFrameResult};
use crate::analysis::style::{analyze_style_recalc, style_of, StyleRecalcResult};
use crate::analysis::summary::{analyze_summary, summary_of, SummaryResult};
use crate::inspect::timeline::{trace_start, trace_start_us};
use crate::json::text_ticks;
use crate::trace::event::TraceEvent;
use crate::trace::file::TraceMetadata;
use crate::trace::meta::{detect_main_thread, is_main_thread};

verus! {

/// All derived analysis for a single parsed trace.
pub struct Analyzed {
    pub main_tid: u64,
    /// When the trace starts, metadata events aside.
    pub min_ts: i64,
    pub summary: SummaryResult,
    pub scroll_frames: ScrollFrameResult,
    pub cpu_profile: CpuProfileResult,
    /// Nodes and self-times of the whole trace, kept for later queries.
    pub cpu_cache: CpuProfileCache,
    pub layout_dirty: LayoutDirtyResult,
    pub style_recalc: StyleRecalcResult,
    pub forced_reflows: ForcedReflowResult,
    pub jank: JankResult,
}

/// What each analysis says.
pub open spec fn analyzed_of(events: Seq<TraceEvent>, a: Analyzed) -> bool {
    &&& is_main_thread(events, a.main_tid)
    &&& a.min_ts == trace_start(events)
    &&& summary_of(events, a.main_tid, a.summary)
    &&& scroll_of(events, a.main_tid, a.scroll_frames)
    &&& cache_of(events, a.cpu_cache)
    &&& profile_result(a.cpu_cache.nodes, a.cpu_cache.self_times, a.cpu_profile)
    &&& layout_dirty_of(events, a.main_tid, a.layout_dirty)
    &&& style_of(events, a.main_tid, a.style_recalc)
    &&& reflows_of(events, a.main_tid, a.forced_reflows)
    &&& jank_of(events, a.main_tid, None, a.jank)
}

/// Run every analysis on the main thread of a trace.
pub fn analyze(events: &[TraceEvent]) -> (a: Analyzed)
    requires
        profile_fits(events@),
    ensures
        analyzed_of(events@, a),
{
    let main_tid = detect_main_thread(events);
    let (cpu_profile, cpu_cache) = analyze_cpu_profile_full(events);
    Analyzed {
        main_tid,
        min_ts: trace_start_us(events),
        summary: analyze_summary(events, main_tid),
        scroll_frames: analyze_scroll_frames(events, main_tid),
        cpu_profile,
        cpu_cache,
        layout_dirty: analyze_layout_dirty(events, main_tid),
        style_recalc: analyze_style_recalc(events, main_tid),
        forced_reflows: analyze_forced_reflows(events, main_tid),
        jank: analyze_jank(events, main_tid, None),
    }
}

/// The figures of the trace are small enough to be compared exactly.
pub open spec fn comparable(a: Analyzed) -> bool {
    &&& summary_fits(a.summary)
    &&& frames_fit(a.scroll_frames)
    &&& times_fit(a.cpu_profile)
    &&& ratio_fits(a.layout_dirty.avg_dirty)
    &&& ratio_fits(a.style_recalc.avg_elements)
}

/// Whether the figures of the trace are small enough to be compared exactly.
pub fn can_compare(a: &Analyzed) -> (r: bool)
    ensures
        r == comparable(*a),
{
    check_summary(&a.summary) && check_frames(&a.scroll_frames) && check_times(&a.cpu_profile)
        && check_counts(&a.layout_dirty, &a.style_recalc)
}

/// What the comparison of two traces says.
pub open spec fn comparison_of(a: Analyzed, b: Analyzed, r: CompareResult) -> bool {
    &&& rows_of(a.summary.event_stats@, b.summary.event_stats@, r.rows@)
    &&& holds_scroll(r, a.scroll_frames, b.scroll_frames)
    &&& *r.summary_a == a.summary && *r.summary_b == b.summary
    &&& *r.layout_a == a.layout_dirty && *r.layout_b == b.layout_dirty
    &&& *r.style_recalc_a == a.style_recalc && *r.style_recalc_b == b.style_recalc
    &&& func_rows(a.cpu_profile, b.cpu_profile, r.cpu_diff@)
    &&& finding_views(r.findings@) == by_severity(
        all_changes(
            a.summary,
            b.summary,
            a.scroll_frames,
            b.scroll_frames,
            a.layout_dirty,
            b.layout_dirty,
            a.style_recalc,
            b.style_recalc,
        ),
    )
}

/// The trace that a report compares with.
pub struct Other<'a> {
    pub name: String,
    pub analyzed: &'a Analyzed,
    pub compare: CompareResult<'a>,
}

/// The report model: a trace with its analyses, its metadata, and the trace
/// that it is compared with.
pub struct App<'a> {
    /// By how much the processor was slowed down, in thousandths; one thousand
    /// where it was not.
    pub throttle_factor: i64,
    pub analyzed: &'a Analyzed,
    pub other: Option<Other<'a>>,
    pub trace_name_a: String,
    pub metadata: Option<&'a TraceMetadata>,
}

/// Throttle factor of a trace that was not slowed down.
pub const FULL_SPEED: i64 = 1000;

/// The throttle factor: as asked for, else as the metadata tell. One that does
/// not slow down counts as none.
pub open spec fn factor_of(asked: Option<i64>, metadata: Option<&TraceMetadata>) -> i64 {
    let told = match metadata {
        Some(m) => match m.cpu_throttling {
            Some(t) => match text_ticks(t@) {
                Some(v) => v,
                None => FULL_SPEED,
            },
            None => FULL_SPEED,
        },
        None => FULL_SPEED,
    };
    let f = match asked {
        Some(v) => v,
        None => told,
    };
    if f > FULL_SPEED {
        f
    } else {
        FULL_SPEED
    }
}

/// The throttle factor in thousandths.
pub fn find_throttle(asked: Option<i64>, metadata: Option<&TraceMetadata>) -> (r: i64)
    ensures
        r == factor_of(asked, metadata),
{
    let told = match metadata {
        Some(m) => match &m.cpu_throttling {
            Some(t) => match crate::json::ticks_in_text(t.as_str()) {
                Some(v) => v,
                None => FULL_SPEED,
            },
            None => FULL_SPEED,
        },
        None => FULL_SPEED,
    };
    let f = match asked {
        Some(v) => v,
        None => told,
    };
    if f > FULL_SPEED {
        f
    } else {
        FULL_SPEED
    }
}

impl<'a> App<'a> {
    /// The figures can be told exactly, and the comparison is that of the two
    /// traces.
    pub open spec fn wf(&self) -> bool {
        &&& times_fit(self.analyzed.cpu_profile)
        &&& self.other matches Some(o) ==> {
            &&& comparable(*self.analyzed)
            &&& comparable(*o.analyzed)
            &&& comparison_of(*self.analyzed, *o.analyzed, o.compare)
        }
    }

    /// The report on a trace, compared with another where one is given.
    pub fn new(
        analyzed: &'a Analyzed,
        other: Option<(&'a Analyzed, String)>,
        trace_name_a: String,
        metadata: Option<&'a TraceMetadata>,
        throttle: Option<i64>,
    ) -> (app: App<'a>)
        requires
            times_fit(analyzed.cpu_profile),
            other matches Some((b, _)) ==> comparable(*analyzed) && comparable(*b),
        ensures
            app.wf(),
            app.analyzed == analyzed,
            app.trace_name_a == trace_name_a,
            app.metadata == metadata,
            app.throttle_factor == factor_of(throttle, metadata),
            match (other, app.other) {
                (Some((b, name)), Some(o)) => o.name == name && o.analyzed == b && comparison_of(
                    *analyzed,
                    *b,
                    o.compare,
                ),
                (None, None) => true,
                _ => false,
            },
    {
        let other = match other {
            Some((b, name)) => {
                let compare = analyze_compare(
                    &analyzed.summary,
                    &b.summary,
                    &analyzed.scroll_frames,
                    &b.scroll_frames,
                    &analyzed.cpu_profile,
                    &b.cpu_profile,
                    &analyzed.layout_dirty,
                    &b.layout_dirty,
                    &analyzed.style_recalc,
                    &b.style_recalc,
                );
                Some(Other { name, analyzed: b, compare })
            },
            None => None,
        };
        App {
            throttle_factor: find_throttle(throttle, metadata),
            analyzed,
            other,
            trace_name_a,
            metadata,
        }
    }
}

} // verus!
