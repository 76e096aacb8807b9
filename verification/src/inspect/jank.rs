//! The section on clusters of jank.

use vstd::prelude::*;
use crate::analysis::compare::{make_whole, whole};
use crate::analysis::jank::{analyze_jank, jank_of, JankCluster, JankResult};
use crate::doc::{doc_view, put, put_u64, Doc, PieceView};
use crate::html::{calls_pieces, cluster_span, dur_pieces, put_copy, put_dur, span_of, tell_calls};
use crate::inspect::events::shown_rows;
use crate::render::{
    more_pieces,
    put_more,
    put_window_block,
    txt,
    window_block,
    window_label,
    window_word,
};
use crate::scope::Scope;
use crate::text::decimal;
use crate::trace::event::TraceEvent;
use crate::trace::meta::{detect_main_thread, is_main_thread};

verus! {

/// Row `i` of the clusters.
pub open spec fn cluster_row(c: JankCluster, i: int) -> Seq<PieceView> {
    seq![txt("| "@), txt(decimal((i + 1) as nat)), txt(" | "@)] + dur_pieces(c.start) + seq![
        txt(" | "@),
    ] + dur_pieces(cluster_span(c)) + seq![txt(" | "@)] + dur_pieces(whole(c.busy as int)) + seq![
        txt(" | "@),
    ] + dur_pieces(whole(c.max_run as int)) + seq![
        txt(" | "@),
        txt(decimal(c.dropped_frames as nat)),
        txt(" | "@),
    ] + calls_pieces(c.top_calls@, c.top_calls@.len() as int) + seq![txt(" |\n"@)]
}

pub open spec fn cluster_rows(s: Seq<JankCluster>, n: int) -> Seq<PieceView>
    decreases n,
{
    if n <= 0 {
        Seq::empty()
    } else {
        cluster_rows(s, n - 1) + cluster_row(s[n - 1], n - 1)
    }
}

/// The section on clusters of jank.
pub open spec fn jank_pieces(r: JankResult, window: Option<(i64, i64)>, top: usize, min_ts: i64) -> Seq<
    PieceView,
> {
    let n = r.clusters@.len();
    seq![
        txt("## Jank clusters ("@),
        txt(decimal(n)),
        txt(" clusters, "@),
        txt(decimal(r.total_dropped as nat)),
        txt(" dropped frames, "@),
        txt(window_word(window)),
        txt(")\n\n"@),
    ] + window_block(window, min_ts) + if n == 0 {
        seq![txt("No jank clusters.\n\n"@)]
    } else {
        seq![
            txt(
                "| # | start | span | busy | max RunTask | dropped | what happened |\n|---|-------|------|------|-------------|---------|---------------|\n"@,
            ),
        ] + cluster_rows(r.clusters@, shown_rows(top, n)) + more_pieces(
            top,
            n as usize,
            " clusters (use --top to see more)._\n"@,
        ) + seq![txt("\n"@)]
    }
}

#[verifier::rlimit(30)]
fn put_cluster(d: &mut Doc, c: &JankCluster, i: usize)
    requires
        i < usize::MAX,
    ensures
        doc_view(final(d)@) == doc_view(old(d)@) + cluster_row(*c, i as int),
{
    let ghost before = doc_view(d@);
    put(d, "| ");
    put_u64(d, i as u64 + 1);
    put(d, " | ");
    put_dur(d, c.start);
    put(d, " | ");
    put_dur(d, span_of(c));
    put(d, " | ");
    put_dur(d, make_whole(c.busy));
    put(d, " | ");
    put_dur(d, make_whole(c.max_run));
    put(d, " | ");
    put_u64(d, c.dropped_frames as u64);
    put(d, " | ");
    put_copy(d, &tell_calls(&c.top_calls));
    put(d, " |\n");
    assert(doc_view(d@) =~= before + cluster_row(*c, i as int));
}

/// Write the section on clusters of jank.
#[verifier::rlimit(30)]
pub fn jank_doc(r: &JankResult, window: Option<(i64, i64)>, top: usize, min_ts: i64) -> (d: Doc)
    ensures
        doc_view(d@) == jank_pieces(*r, window, top, min_ts),
{
    let all = r.clusters.len();
    let mut d: Doc = Vec::new();
    put(&mut d, "## Jank clusters (");
    put_u64(&mut d, all as u64);
    put(&mut d, " clusters, ");
    put_u64(&mut d, r.total_dropped as u64);
    put(&mut d, " dropped frames, ");
    put(&mut d, window_label(window));
    put(&mut d, ")\n\n");
    put_window_block(&mut d, window, min_ts);
    if all == 0 {
        put(&mut d, "No jank clusters.\n\n");
    } else {
        put(
            &mut d,
            "| # | start | span | busy | max RunTask | dropped | what happened |\n|---|-------|------|------|-------------|---------|---------------|\n",
        );
        let ghost head = doc_view(d@);
        let n: usize = if top < all {
            top
        } else {
            all
        };
        let mut k: usize = 0;
        assert(head + cluster_rows(r.clusters@, 0) =~= head);
        while k < n
            invariant
                k <= n <= all,
                all == r.clusters@.len(),
                doc_view(d@) == head + cluster_rows(r.clusters@, k as int),
            decreases n - k,
        {
            put_cluster(&mut d, &r.clusters[k], k);
            assert(doc_view(d@) =~= head + cluster_rows(r.clusters@, k + 1));
            k = k + 1;
        }
        put_more(&mut d, top, all, " clusters (use --top to see more)._\n");
        put(&mut d, "\n");
    }
    assert(doc_view(d@) =~= jank_pieces(*r, window, top, min_ts));
    d
}

/// Clusters of jank on the main thread, within the window of the scope where it
/// has one, and the section that tells them.
pub fn jank_section(events: &[TraceEvent], scope: &Scope, top: usize, min_ts: i64) -> (r: (
    Doc,
    JankResult,
))
    ensures
        exists|tid: u64| #[trigger]
            is_main_thread(events@, tid) && jank_of(events@, tid, scope.window, r.1),
        doc_view(r.0@) == jank_pieces(r.1, scope.window, top, min_ts),
{
    let tid = detect_main_thread(events);
    let j = analyze_jank(events, tid, scope.window);
    let d = jank_doc(&j, scope.window, top, min_ts);
    (d, j)
}

} // verus!
