//! A self-contained report in HTML: one file with its own style, without
//! scripts or other files.

use vstd::prelude::*;
use vstd::string::StringExecFns;
use crate::analysis::common::Ratio;
use crate::analysis::compare::{
    diff_of,
    finding_views,
    frames_fit,
    func_rows,
    is_over,
    lemma_shares_fit,
    make_whole,
    over,
    pct_diff,
    ratio_fits,
    share_fits,
    times_fit,
    whole,
    CpuFunctionDiff,
    Diff,
    Finding,
    FindingSeverity,
    FindingView,
};
use crate::analysis::cpu::{source_label, CpuProfileResult};
use crate::analysis::jank::{JankCluster, JankResult};
use crate::analysis::scroll::{
    average_costs,
    bottleneck_label,
    costs_of,
    FrameAverages,
    FrameTask,
    ScrollFrameResult,
};
use crate::analysis::summary::{EventTypeStat, SummaryResult};
use crate::details::{
    input_html,
    memory_html,
    memory_pair_html,
    put_input,
    put_memory,
    put_memory_pair,
    put_tasks,
    tasks_html,
    Details,
};
use crate::doc::{abs, doc_view, magnitude, make_ratio, put, put_num, put_u64, ratio_num, Doc, Num, Piece, PieceView};
use crate::inspect::events::shown_rows;
use crate::json::{json_opt, text_ticks, ticks_in_text};
use crate::render::{short_url, txt};
use crate::report::{comparable, comparison_of, Analyzed, App, Other, FULL_SPEED};
use crate::text::{after_slash, chars_of, decimal};
use crate::trace::event::opt_chars;
use crate::trace::file::TraceMetadata;
use crate::windowed::calltree::shown_name;

verus! {

/// The style of the report.
pub const CSS: &'static str = "\n<style>\n:root { --fg:#1a2233; --muted:#6b7280; --border:#e6e8ef; --bg:#f5f6f8; --accent:#3b82f6; }\n* { box-sizing: border-box; }\nbody { margin:0; background:var(--bg); color:var(--fg); font:15px/1.5 -apple-system,BlinkMacSystemFont,\"Segoe UI\",Roboto,Helvetica,Arial,sans-serif; }\n.container { max-width:1080px; margin:0 auto; padding:28px 20px 60px; }\nh1 { font-size:22px; margin:0 0 4px; }\nh1 .muted { color:var(--muted); font-weight:400; }\nh2 { font-size:17px; margin:0 0 12px; }\nh3 { font-size:14px; margin:18px 0 8px; }\n.meta { color:var(--muted); font-size:13px; }\n.meta code { background:#eef0f5; padding:1px 5px; border-radius:4px; }\n.metrics { display:grid; grid-template-columns:repeat(auto-fit,minmax(170px,1fr)); gap:12px; margin:16px 0; }\n.metric { background:#fff; border:1px solid var(--border); border-radius:10px; padding:14px 16px; }\n.metric-value { font-size:24px; font-weight:700; font-variant-numeric:tabular-nums; }\n.metric-label { color:var(--muted); font-size:13px; margin-top:2px; }\n.metric-sub { color:var(--muted); font-size:12px; }\n.section { background:#fff; border:1px solid var(--border); border-radius:12px; padding:20px; margin:16px 0; }\ntable { width:100%; border-collapse:collapse; margin:4px 0 8px; }\nth, td { padding:7px 10px; text-align:left; border-bottom:1px solid var(--border); font-size:13.5px; }\nth { color:var(--muted); font-weight:600; white-space:nowrap; }\ntd.num { font-variant-numeric:tabular-nums; text-align:right; }\nth:not(:first-child), td.num { white-space:nowrap; }\ntbody tr:hover { background:#fafbfd; }\ncode { font-family:ui-monospace,SFMono-Regular,Menlo,Consolas,monospace; font-size:13px; }\n.pos { color:#059669; font-weight:600; }\n.neg { color:#dc2626; font-weight:600; }\n.muted { color:var(--muted); }\n.chart { width:100%; height:auto; display:block; margin:6px 0 14px; }\n.chart-title { font-size:13px; color:var(--muted); margin-top:6px; }\n.axis { font-size:11px; fill:var(--muted); }\n.grid { stroke:#eef0f5; }\n.findings { margin:8px 0 16px; padding-left:18px; }\n.findings li { margin:4px 0; }\nfooter { color:var(--muted); font-size:12px; text-align:center; margin-top:28px; }\n@media (prefers-color-scheme: dark) {\n  :root { --fg:#e5e9f0; --muted:#98a1b3; --border:#2a3040; --bg:#141821; }\n  .metric, .section { background:#1b2029; }\n  tbody tr:hover { background:#1f2530; }\n  .meta code { background:#232a38; }\n  .grid { stroke:#2a3040; }\n}\n</style>\n";

/// What stands for a character in HTML text.
pub open spec fn entity(c: char) -> Seq<char> {
    if c == '&' {
        "&amp;"@
    } else if c == '<' {
        "&lt;"@
    } else if c == '>' {
        "&gt;"@
    } else if c == '"' {
        "&quot;"@
    } else {
        seq![c]
    }
}

/// The text with the characters that mean something in HTML replaced.
pub open spec fn escaped(s: Seq<char>) -> Seq<char>
    decreases s.len(),
{
    if s.len() == 0 {
        Seq::empty()
    } else {
        escaped(s.drop_last()) + entity(s.last())
    }
}

/// The text with the characters that mean something in HTML replaced.
pub fn esc(s: &str) -> (r: String)
    ensures
        r@ == escaped(s@),
{
    let c = chars_of(s);
    let mut out = String::new();
    let mut i: usize = 0;
    proof {
        assert(c@.take(0) =~= Seq::<char>::empty());
        assert(out@ =~= escaped(c@.take(0)));
    }
    while i < c.len()
        invariant
            i <= c@.len(),
            out@ == escaped(c@.take(i as int)),
        decreases c@.len() - i,
    {
        assert(c@.take(i + 1).drop_last() =~= c@.take(i as int));
        let x = c[i];
        if x == '&' {
            out.append("&amp;");
        } else if x == '<' {
            out.append("&lt;");
        } else if x == '>' {
            out.append("&gt;");
        } else if x == '"' {
            out.append("&quot;");
        } else {
            out.push(x);
            assert(out@ =~= escaped(c@.take(i as int)) + seq![x]);
        }
        assert(out@ =~= escaped(c@.take(i + 1)));
        i = i + 1;
    }
    assert(c@.take(c@.len() as int) =~= c@);
    out
}

/// Escaped text opens and closes no tag and ends no attribute: it holds no
/// angle bracket and no quote.
pub proof fn lemma_escaped_plain(s: Seq<char>, k: int)
    requires
        0 <= k < escaped(s).len(),
    ensures
        escaped(s)[k] != '<',
        escaped(s)[k] != '>',
        escaped(s)[k] != '"',
    decreases s.len(),
{
    let before = escaped(s.drop_last());
    if k < before.len() {
        lemma_escaped_plain(s.drop_last(), k);
    } else {
        reveal_strlit("&amp;");
        reveal_strlit("&lt;");
        reveal_strlit("&gt;");
        reveal_strlit("&quot;");
    }
}

/// A time in the unit that suits it: seconds, milliseconds or microseconds.
pub open spec fn dur_pieces(r: Ratio) -> Seq<PieceView> {
    let v = magnitude(r.num as int);
    let d = magnitude(r.den as int);
    if v / 10 < d || d == 0 {
        seq![txt("0"@)]
    } else if v / 1_000_000_000 >= d {
        seq![dur_number(r, 1_000_000_000, 2), txt("s"@)]
    } else if v / 1_000_000 >= d {
        seq![dur_number(r, 1_000_000, 2), txt("ms"@)]
    } else {
        seq![dur_number(r, 1000, 0), txt("us"@)]
    }
}

pub open spec fn dur_number(r: Ratio, per: u32, decimals: u8) -> PieceView {
    PieceView::Number(
        Num {
            neg: r.num < 0,
            num: magnitude(r.num as int) as u128,
            den: magnitude(r.den as int) as u128,
            times: 1,
            per,
            decimals,
            plus: false,
        },
    )
}

/// Append a time in the unit that suits it.
#[verifier::rlimit(30)]
pub fn put_dur(d: &mut Doc, r: Ratio)
    ensures
        doc_view(final(d)@) == doc_view(old(d)@) + dur_pieces(r),
{
    let ghost before = doc_view(d@);
    let v = abs(r.num);
    let den = abs(r.den);
    let neg = r.num < 0;
    if v / 10 < den || den == 0 {
        put(d, "0");
    } else if v / 1_000_000_000 >= den {
        put_num(
            d,
            Num { neg, num: v, den, times: 1, per: 1_000_000_000, decimals: 2, plus: false },
        );
        put(d, "s");
    } else if v / 1_000_000 >= den {
        put_num(d, Num { neg, num: v, den, times: 1, per: 1_000_000, decimals: 2, plus: false });
        put(d, "ms");
    } else {
        put_num(d, Num { neg, num: v, den, times: 1, per: 1000, decimals: 0, plus: false });
        put(d, "us");
    }
    assert(doc_view(d@) =~= before + dur_pieces(r));
}

/// A time in the unit that suits it.
pub fn dur(r: Ratio) -> (d: Doc)
    ensures
        doc_view(d@) == dur_pieces(r),
{
    let mut d: Doc = Vec::new();
    put_dur(&mut d, r);
    assert(doc_view(d@) =~= dur_pieces(r));
    d
}

/// Append a copy of a document.
pub fn put_copy(d: &mut Doc, more: &Doc)
    ensures
        doc_view(final(d)@) == doc_view(old(d)@) + doc_view(more@),
{
    let ghost before = doc_view(d@);
    let ghost all = doc_view(more@);
    let mut k: usize = 0;
    assert(before + all.take(0) =~= before);
    while k < more.len()
        invariant
            k <= more@.len(),
            all == doc_view(more@),
            doc_view(d@) == before + all.take(k as int),
        decreases more@.len() - k,
    {
        match &more[k] {
            Piece::Text(s) => put(d, s.as_str()),
            Piece::Number(n) => put_num(d, *n),
        }
        assert(doc_view(d@) =~= before + all.take(k + 1));
        k = k + 1;
    }
    assert(all.take(more@.len() as int) =~= all);
}

/// A document with its text escaped.
pub open spec fn escaped_pieces(p: Seq<PieceView>) -> Seq<PieceView>
    decreases p.len(),
{
    if p.len() == 0 {
        Seq::empty()
    } else {
        escaped_pieces(p.drop_last()).push(
            match p.last() {
                PieceView::Text(s) => txt(escaped(s)),
                PieceView::Number(n) => PieceView::Number(n),
            },
        )
    }
}

/// Append a document with its text escaped.
pub fn put_escaped(d: &mut Doc, more: &Doc)
    ensures
        doc_view(final(d)@) == doc_view(old(d)@) + escaped_pieces(doc_view(more@)),
{
    let ghost before = doc_view(d@);
    let ghost all = doc_view(more@);
    let mut k: usize = 0;
    proof {
        assert(all.take(0) =~= Seq::<PieceView>::empty());
        assert(before + escaped_pieces(all.take(0)) =~= before);
    }
    while k < more.len()
        invariant
            k <= more@.len(),
            all == doc_view(more@),
            doc_view(d@) == before + escaped_pieces(all.take(k as int)),
        decreases more@.len() - k,
    {
        assert(all.take(k + 1).drop_last() =~= all.take(k as int));
        match &more[k] {
            Piece::Text(s) => put(d, esc(s.as_str()).as_str()),
            Piece::Number(n) => put_num(d, *n),
        }
        assert(doc_view(d@) =~= before + escaped_pieces(all.take(k + 1)));
        k = k + 1;
    }
    assert(all.take(more@.len() as int) =~= all);
}

/// What the cells of a row hold.
pub open spec fn cells_view(row: Seq<Doc>) -> Seq<Seq<PieceView>> {
    row.map_values(|c: Doc| doc_view(c@))
}

/// What the rows of a table hold.
pub open spec fn rows_view(rows: Seq<Vec<Doc>>) -> Seq<Seq<Seq<PieceView>>> {
    rows.map_values(|r: Vec<Doc>| cells_view(r@))
}

pub open spec fn headers_html(headers: Seq<&str>, n: int) -> Seq<PieceView>
    decreases n,
{
    if n <= 0 {
        Seq::empty()
    } else {
        headers_html(headers, n - 1) + seq![
            txt("<th>"@),
            txt(escaped(headers[n - 1]@)),
            txt("</th>"@),
        ]
    }
}

pub open spec fn cells_html(cells: Seq<Seq<PieceView>>, n: int) -> Seq<PieceView>
    decreases n,
{
    if n <= 0 {
        Seq::empty()
    } else {
        cells_html(cells, n - 1).push(
            txt(
                if n > 1 {
                    "<td class=\"num\">"@
                } else {
                    "<td>"@
                },
            ),
        ) + cells[n - 1].push(txt("</td>"@))
    }
}

pub open spec fn rows_html(rows: Seq<Seq<Seq<PieceView>>>, n: int) -> Seq<PieceView>
    decreases n,
{
    if n <= 0 {
        Seq::empty()
    } else {
        rows_html(rows, n - 1).push(txt("<tr>"@)) + cells_html(
            rows[n - 1],
            rows[n - 1].len() as int,
        ).push(txt("</tr>"@))
    }
}

/// A table: the headings are text, the cells are HTML, and all but the first of
/// a row are figures.
pub open spec fn table_html(headers: Seq<&str>, rows: Seq<Seq<Seq<PieceView>>>) -> Seq<PieceView> {
    seq![txt("<table><thead><tr>"@)] + headers_html(headers, headers.len() as int) + seq![
        txt("</tr></thead><tbody>"@),
    ] + rows_html(rows, rows.len() as int) + seq![txt("</tbody></table>"@)]
}

fn put_cells(d: &mut Doc, row: &Vec<Doc>)
    ensures
        doc_view(final(d)@) == doc_view(old(d)@) + cells_html(
            cells_view(row@),
            row@.len() as int,
        ),
{
    let ghost before = doc_view(d@);
    let ghost cells = cells_view(row@);
    let mut k: usize = 0;
    assert(before + cells_html(cells, 0) =~= before);
    while k < row.len()
        invariant
            k <= row@.len(),
            cells == cells_view(row@),
            doc_view(d@) == before + cells_html(cells, k as int),
        decreases row@.len() - k,
    {
        if k > 0 {
            put(d, "<td class=\"num\">");
        } else {
            put(d, "<td>");
        }
        put_copy(d, &row[k]);
        put(d, "</td>");
        assert(cells[k as int] == doc_view(row@[k as int]@));
        assert(doc_view(d@) =~= before + cells_html(cells, k + 1));
        k = k + 1;
    }
}

/// Append a table.
#[verifier::rlimit(30)]
pub fn table(d: &mut Doc, headers: &Vec<&str>, rows: &Vec<Vec<Doc>>)
    ensures
        doc_view(final(d)@) == doc_view(old(d)@) + table_html(headers@, rows_view(rows@)),
{
    let ghost start = doc_view(d@);
    put(d, "<table><thead><tr>");
    let ghost before = doc_view(d@);
    let mut k: usize = 0;
    assert(before + headers_html(headers@, 0) =~= before);
    while k < headers.len()
        invariant
            k <= headers@.len(),
            doc_view(d@) == before + headers_html(headers@, k as int),
        decreases headers@.len() - k,
    {
        put(d, "<th>");
        put(d, esc(headers[k]).as_str());
        put(d, "</th>");
        assert(doc_view(d@) =~= before + headers_html(headers@, k + 1));
        k = k + 1;
    }
    put(d, "</tr></thead><tbody>");
    let ghost mid = doc_view(d@);
    let ghost all = rows_view(rows@);
    let mut i: usize = 0;
    assert(mid + rows_html(all, 0) =~= mid);
    while i < rows.len()
        invariant
            i <= rows@.len(),
            all == rows_view(rows@),
            doc_view(d@) == mid + rows_html(all, i as int),
        decreases rows@.len() - i,
    {
        put(d, "<tr>");
        put_cells(d, &rows[i]);
        put(d, "</tr>");
        assert(all[i as int] == cells_view(rows@[i as int]@));
        assert(doc_view(d@) =~= mid + rows_html(all, i + 1));
        i = i + 1;
    }
    put(d, "</tbody></table>");
    assert(doc_view(d@) =~= start + table_html(headers@, rows_view(rows@)));
}

pub open spec fn section_html(title: Seq<char>) -> Seq<PieceView> {
    seq![txt("<section class=\"section\"><h2>"@), txt(escaped(title)), txt("</h2>"@)]
}

/// Open a section.
pub fn section(d: &mut Doc, title: &str)
    ensures
        doc_view(final(d)@) == doc_view(old(d)@) + section_html(title@),
{
    let ghost before = doc_view(d@);
    put(d, "<section class=\"section\"><h2>");
    put(d, esc(title).as_str());
    put(d, "</h2>");
    assert(doc_view(d@) =~= before + section_html(title@));
}

/// A figure with its label and what else is told of it.
pub open spec fn metric_html(label: Seq<char>, value: Seq<PieceView>, sub: Seq<PieceView>) -> Seq<PieceView> {
    seq![txt("<div class=\"metric\"><div class=\"metric-value\">"@)] + value + seq![
        txt("</div><div class=\"metric-label\">"@),
        txt(escaped(label)),
        txt("</div>"@),
    ] + (if sub.len() == 0 {
        Seq::<PieceView>::empty()
    } else {
        seq![txt("<div class=\"metric-sub\">"@)] + escaped_pieces(sub) + seq![txt("</div>"@)]
    }) + seq![txt("</div>"@)]
}

/// Append a figure with its label.
#[verifier::rlimit(30)]
pub fn metric(d: &mut Doc, label: &str, value: &Doc, sub: &Doc)
    ensures
        doc_view(final(d)@) == doc_view(old(d)@) + metric_html(
            label@,
            doc_view(value@),
            doc_view(sub@),
        ),
{
    let ghost before = doc_view(d@);
    put(d, "<div class=\"metric\"><div class=\"metric-value\">");
    put_copy(d, value);
    put(d, "</div><div class=\"metric-label\">");
    put(d, esc(label).as_str());
    put(d, "</div>");
    if sub.len() > 0 {
        put(d, "<div class=\"metric-sub\">");
        put_escaped(d, sub);
        put(d, "</div>");
    }
    put(d, "</div>");
    assert(doc_view(d@) =~= before + metric_html(label@, doc_view(value@), doc_view(sub@)));
}

/// A text as a document.
pub fn plain(s: &str) -> (d: Doc)
    ensures
        doc_view(d@) == seq![txt(s@)],
{
    let mut d: Doc = Vec::new();
    put(&mut d, s);
    assert(doc_view(d@) =~= seq![txt(s@)]);
    d
}

/// A number as a document.
pub fn count(n: usize) -> (d: Doc)
    ensures
        doc_view(d@) == seq![txt(decimal(n as nat))],
{
    let mut d: Doc = Vec::new();
    put_u64(&mut d, n as u64);
    assert(doc_view(d@) =~= seq![txt(decimal(n as nat))]);
    d
}

/// A quotient as a document, with what stands behind it.
pub fn figure(num: i128, den: i128, times: u32, decimals: u8, plus: bool, unit: &str) -> (d: Doc)
    ensures
        doc_view(d@) == figure_pieces(num as int, den as int, times, decimals, plus, unit@),
{
    let mut d: Doc = Vec::new();
    put_num(&mut d, make_ratio(num, den, times, decimals, plus));
    put(&mut d, unit);
    assert(doc_view(d@) =~= figure_pieces(num as int, den as int, times, decimals, plus, unit@));
    d
}

pub open spec fn figure_pieces(
    num: int,
    den: int,
    times: u32,
    decimals: u8,
    plus: bool,
    unit: Seq<char>,
) -> Seq<PieceView> {
    seq![PieceView::Number(ratio_num(num, den, times, decimals, plus)), txt(unit)]
}

/// A change in percent, without decimals.
pub open spec fn change_num(d: Diff, plus: bool) -> PieceView {
    PieceView::Number(
        Num {
            neg: d.neg,
            num: d.size.num,
            den: d.size.den,
            times: 100,
            per: 1,
            decimals: 0,
            plus,
        },
    )
}

/// The change from one figure to another: worse where it grows by more than
/// five percent, better where it shrinks by more.
pub open spec fn change_html(a: Ratio, b: Ratio) -> Seq<PieceView> {
    let d = diff_of(a, b);
    if a.num <= 0 && b.num <= 0 {
        seq![txt("<span class=\"muted\">—</span>"@)]
    } else if a.num <= 0 {
        seq![txt("<span class=\"pos\">new</span>"@)]
    } else if over(d, 5) && !d.neg {
        seq![txt("<span class=\"neg\">"@), change_num(d, true), txt("%</span>"@)]
    } else if over(d, 5) {
        seq![txt("<span class=\"pos\">"@), change_num(d, false), txt("%</span>"@)]
    } else {
        seq![txt("<span class=\"muted\">"@), change_num(d, true), txt("%</span>"@)]
    }
}

fn make_change(d: Diff, plus: bool) -> (r: Num)
    ensures
        PieceView::Number(r) == change_num(d, plus),
{
    Num { neg: d.neg, num: d.size.num, den: d.size.den, times: 100, per: 1, decimals: 0, plus }
}

/// The change from one figure to another.
#[verifier::rlimit(30)]
pub fn change_cell(a: Ratio, b: Ratio) -> (c: Doc)
    requires
        ratio_fits(a),
        ratio_fits(b),
    ensures
        doc_view(c@) == change_html(a, b),
{
    let mut c: Doc = Vec::new();
    if a.num <= 0 && b.num <= 0 {
        put(&mut c, "<span class=\"muted\">—</span>");
    } else if a.num <= 0 {
        put(&mut c, "<span class=\"pos\">new</span>");
    } else {
        let d = pct_diff(a, b);
        let far = is_over(d, 5);
        if far && !d.neg {
            put(&mut c, "<span class=\"neg\">");
            put_num(&mut c, make_change(d, true));
        } else if far {
            put(&mut c, "<span class=\"pos\">");
            put_num(&mut c, make_change(d, false));
        } else {
            put(&mut c, "<span class=\"muted\">");
            put_num(&mut c, make_change(d, true));
        }
        put(&mut c, "%</span>");
    }
    assert(doc_view(c@) =~= change_html(a, b));
    c
}

/// The head of the report: page title, style and heading.
pub open spec fn head_html(name: Seq<char>) -> Seq<PieceView> {
    seq![
        txt(
            "<!DOCTYPE html>\n<html lang=\"en\"><head><meta charset=\"utf-8\"><meta name=\"viewport\" content=\"width=device-width, initial-scale=1\"><title>chperf: "@,
        ),
        txt(escaped(name)),
        txt("</title>"@),
        txt(CSS@),
        txt(
            "</head><body><div class=\"container\"><h1>Chrome Trace Analysis: <span class=\"muted\">"@,
        ),
        txt(escaped(name)),
        txt("</span></h1>"@),
    ]
}

#[verifier::rlimit(30)]
fn put_head(d: &mut Doc, name: &str)
    ensures
        doc_view(final(d)@) == doc_view(old(d)@) + head_html(name@),
{
    let ghost before = doc_view(d@);
    put(
        d,
        "<!DOCTYPE html>\n<html lang=\"en\"><head><meta charset=\"utf-8\"><meta name=\"viewport\" content=\"width=device-width, initial-scale=1\"><title>chperf: ",
    );
    put(d, esc(name).as_str());
    put(d, "</title>");
    put(d, CSS);
    put(
        d,
        "</head><body><div class=\"container\"><h1>Chrome Trace Analysis: <span class=\"muted\">",
    );
    put(d, esc(name).as_str());
    put(d, "</span></h1>");
    assert(doc_view(d@) =~= before + head_html(name@));
}

/// A line of metadata, where there is any.
pub open spec fn meta_line(open: Seq<char>, text: Option<Seq<char>>, close: Seq<char>) -> Seq<PieceView> {
    match text {
        Some(s) => seq![txt(open), txt(escaped(s)), txt(close)],
        None => Seq::empty(),
    }
}

fn put_meta_line(d: &mut Doc, open: &str, text: &Option<String>, close: &str)
    ensures
        doc_view(final(d)@) == doc_view(old(d)@) + meta_line(open@, opt_chars(*text), close@),
{
    let ghost before = doc_view(d@);
    match text {
        Some(s) => {
            put(d, open);
            put(d, esc(s.as_str()).as_str());
            put(d, close);
        },
        None => {},
    }
    assert(doc_view(d@) =~= before + meta_line(open@, opt_chars(*text), close@));
}

/// The pixel ratio of the screen, where it is told as a number.
pub open spec fn dpr_html(text: Option<Seq<char>>) -> Seq<PieceView> {
    match text {
        Some(s) => match text_ticks(s) {
            Some(v) => seq![
                txt("<div class=\"meta\">DPR: "@),
                PieceView::Number(ratio_num(v as int, 1000, 1, 2, false)),
                txt("</div>"@),
            ],
            None => Seq::empty(),
        },
        None => Seq::empty(),
    }
}

fn put_dpr(d: &mut Doc, text: &Option<String>)
    ensures
        doc_view(final(d)@) == doc_view(old(d)@) + dpr_html(opt_chars(*text)),
{
    let ghost before = doc_view(d@);
    if let Some(s) = text {
        if let Some(v) = ticks_in_text(s.as_str()) {
            put(d, "<div class=\"meta\">DPR: ");
            put_num(d, make_ratio(v as i128, 1000, 1, 2, false));
            put(d, "</div>");
        }
    }
    assert(doc_view(d@) =~= before + dpr_html(opt_chars(*text)));
}

/// What the metadata tell: page, time of recording, pixel ratio.
pub open spec fn meta_html(m: Option<&TraceMetadata>) -> Seq<PieceView> {
    match m {
        Some(x) => meta_line(
            "<div class=\"meta\">URL: <code>"@,
            opt_chars(x.page_url),
            "</code></div>"@,
        ) + meta_line("<div class=\"meta\">Recorded: "@, opt_chars(x.start_time), "</div>"@)
            + dpr_html(opt_chars(x.host_dpr)),
        None => Seq::empty(),
    }
}

/// What is told of a processor that was slowed down.
pub open spec fn throttle_html(factor: i64) -> Seq<PieceView> {
    if factor > FULL_SPEED {
        seq![
            txt("<div class=\"meta\">CPU throttle "@),
            PieceView::Number(ratio_num(factor as int, 1000, 1, 0, false)),
            txt("x applied — divide times by "@),
            PieceView::Number(ratio_num(factor as int, 1000, 1, 0, false)),
            txt(" for real-world.</div>"@),
        ]
    } else {
        Seq::empty()
    }
}

#[verifier::rlimit(30)]
fn put_meta(d: &mut Doc, m: Option<&TraceMetadata>, factor: i64)
    ensures
        doc_view(final(d)@) == doc_view(old(d)@) + meta_html(m) + throttle_html(factor),
{
    let ghost before = doc_view(d@);
    if let Some(x) = m {
        put_meta_line(d, "<div class=\"meta\">URL: <code>", &x.page_url, "</code></div>");
        put_meta_line(d, "<div class=\"meta\">Recorded: ", &x.start_time, "</div>");
        put_dpr(d, &x.host_dpr);
    }
    assert(doc_view(d@) =~= before + meta_html(m));
    if factor > FULL_SPEED {
        put(d, "<div class=\"meta\">CPU throttle ");
        put_num(d, make_ratio(factor as i128, 1000, 1, 0, false));
        put(d, "x applied — divide times by ");
        put_num(d, make_ratio(factor as i128, 1000, 1, 0, false));
        put(d, " for real-world.</div>");
    }
    assert(doc_view(d@) =~= before + meta_html(m) + throttle_html(factor));
}

/// The share of the trace in which the main thread was busy.
pub open spec fn busy_pieces(s: SummaryResult) -> Seq<PieceView> {
    figure_pieces(
        s.main_thread_busy as int,
        if s.total_trace_duration > 0 {
            s.total_trace_duration as int
        } else {
            0
        },
        100,
        1,
        false,
        "%"@,
    )
}

/// The cards at the top of the report.
pub open spec fn cards_html(s: SummaryResult, dropped: usize) -> Seq<PieceView> {
    seq![txt("<div class=\"metrics\">"@)] + metric_html(
        "Duration"@,
        dur_pieces(whole(s.total_trace_duration as int)),
        Seq::empty(),
    ) + metric_html(
        "Main thread busy"@,
        busy_pieces(s),
        dur_pieces(whole(s.main_thread_busy as int)),
    ) + metric_html(
        "Long tasks (>50ms)"@,
        seq![txt(decimal(s.long_task_count as nat))],
        Seq::empty(),
    ) + metric_html("Dropped frames"@, seq![txt(decimal(dropped as nat))], Seq::empty()) + seq![
        txt("</div>"@),
    ]
}

/// A document without pieces.
pub fn nothing() -> (d: Doc)
    ensures
        doc_view(d@) == Seq::<PieceView>::empty(),
{
    let d: Doc = Vec::new();
    assert(doc_view(d@) =~= Seq::<PieceView>::empty());
    d
}

fn put_cards(d: &mut Doc, s: &SummaryResult, dropped: usize)
    ensures
        doc_view(final(d)@) == doc_view(old(d)@) + cards_html(*s, dropped),
{
    let ghost before = doc_view(d@);
    let none = nothing();
    put(d, "<div class=\"metrics\">");
    metric(d, "Duration", &dur(make_whole(s.total_trace_duration)), &none);
    let span: i128 = if s.total_trace_duration > 0 {
        s.total_trace_duration
    } else {
        0
    };
    metric(
        d,
        "Main thread busy",
        &figure(s.main_thread_busy, span, 100, 1, false, "%"),
        &dur(make_whole(s.main_thread_busy)),
    );
    metric(d, "Long tasks (>50ms)", &count(s.long_task_count), &none);
    metric(d, "Dropped frames", &count(dropped), &none);
    put(d, "</div>");
    assert(doc_view(d@) =~= before + cards_html(*s, dropped));
}

/// How many functions the report lists.
pub const TOP_CPU: usize = 30;

/// The self-time of the first `n` functions.
pub open spec fn self_sum(c: CpuProfileResult, n: int) -> int
    decreases n,
{
    if n <= 0 {
        0
    } else {
        self_sum(c, n - 1) + c.functions@[n - 1].self_time
    }
}

/// A share of all sample time.
pub open spec fn cpu_share(part: int, c: CpuProfileResult) -> Seq<PieceView> {
    figure_pieces(part, c.total_sample_time as int, 100, 1, false, "%"@)
}

/// The row of function `i`: its own share, and that of all down to it.
pub open spec fn cpu_row(c: CpuProfileResult, i: int) -> Seq<Seq<PieceView>> {
    let f = c.functions@[i];
    seq![
        cpu_share(f.self_time as int, c),
        seq![txt(source_label(f.source_type))],
        seq![txt(escaped(shown_name(f.function_name@)))],
        dur_pieces(whole(f.self_time as int)),
        cpu_share(self_sum(c, i + 1), c),
        seq![txt(escaped(after_slash(f.url@)))],
    ]
}

pub open spec fn cpu_rows(c: CpuProfileResult, n: int) -> Seq<Seq<Seq<PieceView>>>
    decreases n,
{
    if n <= 0 {
        Seq::empty()
    } else {
        cpu_rows(c, n - 1).push(cpu_row(c, n - 1))
    }
}

/// The section on the sampled functions.
pub open spec fn cpu_html(c: CpuProfileResult) -> Seq<PieceView> {
    if c.functions@.len() == 0 {
        Seq::empty()
    } else {
        section_html("CPU profile — top functions by self time"@) + table_html(
            seq!["self %", "source", "function", "self time", "cum %", "file"],
            cpu_rows(c, shown_rows(TOP_CPU, c.functions@.len())),
        ) + seq![txt("</section>"@)]
    }
}

#[verifier::rlimit(30)]
fn put_cpu(d: &mut Doc, c: &CpuProfileResult)
    requires
        times_fit(*c),
    ensures
        doc_view(final(d)@) == doc_view(old(d)@) + cpu_html(*c),
{
    let ghost before = doc_view(d@);
    if c.functions.len() == 0 {
        assert(doc_view(d@) =~= before + cpu_html(*c));
        return;
    }
    section(d, "CPU profile — top functions by self time");
    let n: usize = if c.functions.len() > TOP_CPU {
        TOP_CPU
    } else {
        c.functions.len()
    };
    let mut rows: Vec<Vec<Doc>> = Vec::new();
    let mut sum: i128 = 0;
    let mut i: usize = 0;
    assert(rows_view(rows@) =~= cpu_rows(*c, 0));
    while i < n
        invariant
            i <= n <= c.functions@.len(),
            n <= TOP_CPU,
            times_fit(*c),
            sum == self_sum(*c, i as int),
            0 <= sum <= i * i64::MAX,
            rows_view(rows@) == cpu_rows(*c, i as int),
        decreases n - i,
    {
        let f = &c.functions[i];
        assert(0 <= c.functions@[i as int].self_time <= i64::MAX);
        sum = sum + f.self_time;
        let name = if f.function_name.as_str().is_empty() {
            "(anonymous)"
        } else {
            f.function_name.as_str()
        };
        let mut row: Vec<Doc> = Vec::new();
        row.push(figure(f.self_time, c.total_sample_time, 100, 1, false, "%"));
        row.push(plain(f.source_type.label()));
        row.push(plain(esc(name).as_str()));
        row.push(dur(make_whole(f.self_time)));
        row.push(figure(sum, c.total_sample_time, 100, 1, false, "%"));
        row.push(plain(esc(short_url(f.url.as_str()).as_str()).as_str()));
        assert(cells_view(row@) =~= cpu_row(*c, i as int));
        let ghost old_rows = rows@;
        rows.push(row);
        assert(rows_view(rows@) =~= rows_view(old_rows).push(cpu_row(*c, i as int)));
        i = i + 1;
    }
    let headers = vec!["self %", "source", "function", "self time", "cum %", "file"];
    table(d, &headers, &rows);
    put(d, "</section>");
    assert(headers@ =~= seq!["self %", "source", "function", "self time", "cum %", "file"]);
    assert(doc_view(d@) =~= before + cpu_html(*c));
}

/// The row of an event type.
pub open spec fn event_cells(s: EventTypeStat) -> Seq<Seq<PieceView>> {
    seq![
        seq![txt(escaped(s.name@))],
        seq![txt(decimal(s.count as nat))],
        dur_pieces(whole(s.total_time as int)),
        dur_pieces(s.avg_time),
        figure_pieces(
            s.share_of_trace.num as int,
            s.share_of_trace.den as int,
            100,
            1,
            false,
            "%"@,
        ),
    ]
}

pub open spec fn event_table(s: Seq<EventTypeStat>, n: int) -> Seq<Seq<Seq<PieceView>>>
    decreases n,
{
    if n <= 0 {
        Seq::empty()
    } else {
        event_table(s, n - 1).push(event_cells(s[n - 1]))
    }
}

/// The section on event types.
pub open spec fn events_html(s: Seq<EventTypeStat>) -> Seq<PieceView> {
    if s.len() == 0 {
        Seq::empty()
    } else {
        section_html("Event breakdown"@) + table_html(
            seq!["event", "count", "total", "avg", "% of trace"],
            event_table(s, s.len() as int),
        ) + seq![txt("</section>"@)]
    }
}

#[verifier::rlimit(30)]
fn put_events(d: &mut Doc, s: &Vec<EventTypeStat>)
    ensures
        doc_view(final(d)@) == doc_view(old(d)@) + events_html(s@),
{
    let ghost before = doc_view(d@);
    if s.len() == 0 {
        assert(doc_view(d@) =~= before + events_html(s@));
        return;
    }
    section(d, "Event breakdown");
    let mut rows: Vec<Vec<Doc>> = Vec::new();
    let mut i: usize = 0;
    assert(rows_view(rows@) =~= event_table(s@, 0));
    while i < s.len()
        invariant
            i <= s@.len(),
            rows_view(rows@) == event_table(s@, i as int),
        decreases s@.len() - i,
    {
        let x = &s[i];
        let mut row: Vec<Doc> = Vec::new();
        row.push(plain(esc(x.name).as_str()));
        row.push(count(x.count));
        row.push(dur(make_whole(x.total_time)));
        row.push(dur(x.avg_time));
        row.push(figure(x.share_of_trace.num, x.share_of_trace.den, 100, 1, false, "%"));
        assert(cells_view(row@) =~= event_cells(s@[i as int]));
        let ghost old_rows = rows@;
        rows.push(row);
        assert(rows_view(rows@) =~= rows_view(old_rows).push(event_cells(s@[i as int])));
        i = i + 1;
    }
    let headers = vec!["event", "count", "total", "avg", "% of trace"];
    table(d, &headers, &rows);
    put(d, "</section>");
    assert(headers@ =~= seq!["event", "count", "total", "avg", "% of trace"]);
    assert(doc_view(d@) =~= before + events_html(s@));
}

/// A width in whole milliseconds, to the nearest, halves up.
pub open spec fn width_ms(r: Ratio) -> nat {
    let d = magnitude(r.den as int);
    if d == 0 {
        0
    } else {
        (magnitude(r.num as int) / d + 500_000) / 1_000_000
    }
}

/// The calls of a cluster, with their times.
pub open spec fn calls_pieces(calls: Seq<(String, i128)>, n: int) -> Seq<PieceView>
    decreases n,
{
    if n <= 0 {
        Seq::empty()
    } else {
        let before = calls_pieces(calls, n - 1);
        (if n == 1 {
            before
        } else {
            before.push(txt(", "@))
        }) + seq![txt(calls[n - 1].0@), txt(" ("@)] + dur_pieces(whole(calls[n - 1].1 as int))
            + seq![txt(")"@)]
    }
}

pub fn tell_calls(calls: &Vec<(String, i128)>) -> (d: Doc)
    ensures
        doc_view(d@) == calls_pieces(calls@, calls@.len() as int),
{
    let mut d: Doc = Vec::new();
    let mut k: usize = 0;
    assert(doc_view(d@) =~= calls_pieces(calls@, 0));
    while k < calls.len()
        invariant
            k <= calls@.len(),
            doc_view(d@) == calls_pieces(calls@, k as int),
        decreases calls@.len() - k,
    {
        if k > 0 {
            put(&mut d, ", ");
        }
        put(&mut d, calls[k].0.as_str());
        put(&mut d, " (");
        put_dur(&mut d, make_whole(calls[k].1));
        put(&mut d, ")");
        assert(doc_view(d@) =~= calls_pieces(calls@, k + 1));
        k = k + 1;
    }
    d
}

/// The nearest number that can be told.
pub open spec fn nearest(v: int) -> i128 {
    if v < i128::MIN {
        i128::MIN
    } else if v > i128::MAX {
        i128::MAX
    } else {
        v as i128
    }
}

/// How long a cluster lasts.
pub open spec fn cluster_span(c: JankCluster) -> Ratio {
    Ratio { num: nearest(c.end.num - c.start.num), den: c.start.den }
}

pub fn span_of(c: &JankCluster) -> (r: Ratio)
    ensures
        r == cluster_span(*c),
{
    let (a, b) = (c.start.num, c.end.num);
    let num: i128 = if a < 0 && b > i128::MAX + a {
        i128::MAX
    } else if a > 0 && b < i128::MIN + a {
        i128::MIN
    } else {
        b - a
    };
    Ratio { num, den: c.start.den }
}

/// The row of a cluster.
pub open spec fn cluster_cells(c: JankCluster) -> Seq<Seq<PieceView>> {
    seq![
        dur_pieces(c.start),
        dur_pieces(cluster_span(c)),
        dur_pieces(whole(c.busy as int)),
        dur_pieces(whole(c.max_run as int)),
        seq![txt(decimal(c.dropped_frames as nat))],
        escaped_pieces(calls_pieces(c.top_calls@, c.top_calls@.len() as int)),
    ]
}

pub open spec fn cluster_table(s: Seq<JankCluster>, n: int) -> Seq<Seq<Seq<PieceView>>>
    decreases n,
{
    if n <= 0 {
        Seq::empty()
    } else {
        cluster_table(s, n - 1).push(cluster_cells(s[n - 1]))
    }
}

/// The section on clusters of jank.
pub open spec fn jank_html(j: JankResult) -> Seq<PieceView> {
    if j.clusters@.len() == 0 && j.total_dropped == 0 {
        Seq::empty()
    } else {
        section_html("Jank clusters"@) + seq![
            txt("<p class=\"muted\">Bucket "@),
            txt(decimal(width_ms(j.bucket))),
            txt(
                "ms — dropped frames and ≥16.7ms spikes below the Long Task threshold.</p>"@,
            ),
        ] + table_html(
            seq!["start", "span", "busy", "max RunTask", "dropped", "what happened"],
            cluster_table(j.clusters@, j.clusters@.len() as int),
        ) + seq![txt("</section>"@)]
    }
}

fn put_width(d: &mut Doc, r: Ratio)
    ensures
        doc_view(final(d)@) == doc_view(old(d)@).push(txt(decimal(width_ms(r)))),
{
    let den = abs(r.den);
    let v = abs(r.num);
    let m: u128 = if den == 0 {
        0
    } else {
        let q = v / den;
        proof {
            assert(q <= v) by (nonlinear_arith)
                requires
                    den >= 1,
                    q == v / den,
            ;
        }
        (q + 500_000) / 1_000_000
    };
    put(d, crate::text::u128_text(m).as_str());
}

#[verifier::rlimit(30)]
fn put_jank(d: &mut Doc, j: &JankResult)
    ensures
        doc_view(final(d)@) == doc_view(old(d)@) + jank_html(*j),
{
    let ghost before = doc_view(d@);
    if j.clusters.len() == 0 && j.total_dropped == 0 {
        assert(doc_view(d@) =~= before + jank_html(*j));
        return;
    }
    section(d, "Jank clusters");
    put(d, "<p class=\"muted\">Bucket ");
    put_width(d, j.bucket);
    put(d, "ms — dropped frames and ≥16.7ms spikes below the Long Task threshold.</p>");
    let ghost mid = doc_view(d@);
    let mut rows: Vec<Vec<Doc>> = Vec::new();
    let mut i: usize = 0;
    assert(rows_view(rows@) =~= cluster_table(j.clusters@, 0));
    while i < j.clusters.len()
        invariant
            i <= j.clusters@.len(),
            rows_view(rows@) == cluster_table(j.clusters@, i as int),
        decreases j.clusters@.len() - i,
    {
        let c = &j.clusters[i];
        let calls = tell_calls(&c.top_calls);
        let mut told = nothing();
        put_escaped(&mut told, &calls);
        let mut row: Vec<Doc> = Vec::new();
        row.push(dur(c.start));
        row.push(dur(span_of(c)));
        row.push(dur(make_whole(c.busy)));
        row.push(dur(make_whole(c.max_run)));
        row.push(count(c.dropped_frames));
        row.push(told);
        proof {
            assert(doc_view(told@) =~= escaped_pieces(doc_view(calls@)));
            assert(cells_view(row@) =~= cluster_cells(j.clusters@[i as int]));
        }
        let ghost old_rows = rows@;
        rows.push(row);
        assert(rows_view(rows@) =~= rows_view(old_rows).push(cluster_cells(j.clusters@[i as int])));
        i = i + 1;
    }
    let headers = vec!["start", "span", "busy", "max RunTask", "dropped", "what happened"];
    table(d, &headers, &rows);
    put(d, "</section>");
    assert(headers@ =~= seq!["start", "span", "busy", "max RunTask", "dropped", "what happened"]);
    assert(doc_view(d@) =~= before + jank_html(*j));
}

/// How many scroll tasks the report lists.
pub const TOP_SCROLL: usize = 15;

/// The row of a scroll task.
pub open spec fn frame_cells(t: FrameTask) -> Seq<Seq<PieceView>> {
    seq![
        dur_pieces(whole(t.dur as int)),
        seq![txt(bottleneck_label(costs_of(t)))],
        dur_pieces(whole(t.js as int)),
        dur_pieces(whole(t.ult as int)),
        dur_pieces(whole(t.layout as int)),
        dur_pieces(whole(t.paint as int)),
    ]
}

pub open spec fn frame_table(s: Seq<FrameTask>, n: int) -> Seq<Seq<Seq<PieceView>>>
    decreases n,
{
    if n <= 0 {
        Seq::empty()
    } else {
        frame_table(s, n - 1).push(frame_cells(s[n - 1]))
    }
}

/// The section on scroll frames.
pub open spec fn scroll_html(s: ScrollFrameResult) -> Seq<PieceView> {
    if s.tasks@.len() == 0 {
        Seq::empty()
    } else {
        section_html("Scroll frame analysis"@) + seq![txt("<div class=\"metrics\">"@)] + metric_html(
            "Scroll tasks"@,
            seq![txt(decimal(s.tasks@.len()))],
            Seq::empty(),
        ) + metric_html(
            "Avg duration"@,
            dur_pieces(s.avg.dur),
            seq![txt("bottleneck: "@), txt(bottleneck_label(average_costs(s.avg)))],
        ) + metric_html(
            "P50 / P90 / P99"@,
            dur_pieces(whole(s.percentiles.p50 as int)) + seq![txt(" / "@)] + dur_pieces(
                whole(s.percentiles.p90 as int),
            ) + seq![txt(" / "@)] + dur_pieces(whole(s.percentiles.p99 as int)),
            Seq::empty(),
        ) + seq![txt("</div>"@)] + table_html(
            seq!["duration", "bottleneck", "JS", "style", "layout", "paint"],
            frame_table(s.tasks@, shown_rows(TOP_SCROLL, s.tasks@.len())),
        ) + seq![txt("</section>"@)]
    }
}

#[verifier::rlimit(30)]
fn list_frames(tasks: &Vec<FrameTask>) -> (rows: Vec<Vec<Doc>>)
    ensures
        rows_view(rows@) == frame_table(tasks@, shown_rows(TOP_SCROLL, tasks@.len())),
{
    let n: usize = if tasks.len() > TOP_SCROLL {
        TOP_SCROLL
    } else {
        tasks.len()
    };
    let mut rows: Vec<Vec<Doc>> = Vec::new();
    let mut i: usize = 0;
    assert(rows_view(rows@) =~= frame_table(tasks@, 0));
    while i < n
        invariant
            i <= n <= tasks@.len(),
            rows_view(rows@) == frame_table(tasks@, i as int),
        decreases n - i,
    {
        let t = &tasks[i];
        let mut row: Vec<Doc> = Vec::new();
        row.push(dur(make_whole(t.dur as i128)));
        row.push(plain(t.bottleneck()));
        row.push(dur(make_whole(t.js)));
        row.push(dur(make_whole(t.ult)));
        row.push(dur(make_whole(t.layout)));
        row.push(dur(make_whole(t.paint)));
        assert(cells_view(row@) =~= frame_cells(tasks@[i as int]));
        let ghost old_rows = rows@;
        rows.push(row);
        assert(rows_view(rows@) =~= rows_view(old_rows).push(frame_cells(tasks@[i as int])));
        i = i + 1;
    }
    rows
}

#[verifier::rlimit(30)]
fn put_scroll(d: &mut Doc, s: &ScrollFrameResult)
    ensures
        doc_view(final(d)@) == doc_view(old(d)@) + scroll_html(*s),
{
    let ghost before = doc_view(d@);
    if s.tasks.len() == 0 {
        assert(doc_view(d@) =~= before + scroll_html(*s));
        return;
    }
    let none = nothing();
    section(d, "Scroll frame analysis");
    put(d, "<div class=\"metrics\">");
    metric(d, "Scroll tasks", &count(s.tasks.len()), &none);
    let mut sub: Doc = Vec::new();
    put(&mut sub, "bottleneck: ");
    put(&mut sub, s.avg.bottleneck());
    assert(doc_view(sub@) =~= seq![
        txt("bottleneck: "@),
        txt(bottleneck_label(average_costs(s.avg))),
    ]);
    metric(d, "Avg duration", &dur(s.avg.dur), &sub);
    let mut three = dur(make_whole(s.percentiles.p50 as i128));
    put(&mut three, " / ");
    put_dur(&mut three, make_whole(s.percentiles.p90 as i128));
    put(&mut three, " / ");
    put_dur(&mut three, make_whole(s.percentiles.p99 as i128));
    assert(doc_view(three@) =~= dur_pieces(whole(s.percentiles.p50 as int)) + seq![txt(" / "@)]
        + dur_pieces(whole(s.percentiles.p90 as int)) + seq![txt(" / "@)] + dur_pieces(
        whole(s.percentiles.p99 as int),
    ));
    metric(d, "P50 / P90 / P99", &three, &none);
    put(d, "</div>");
    let rows = list_frames(&s.tasks);
    let headers = vec!["duration", "bottleneck", "JS", "style", "layout", "paint"];
    table(d, &headers, &rows);
    put(d, "</section>");
    assert(headers@ =~= seq!["duration", "bottleneck", "JS", "style", "layout", "paint"]);
    assert(doc_view(d@) =~= before + scroll_html(*s));
}

/// How the severity of a finding is marked and named.
pub open spec fn severity_class(s: FindingSeverity) -> Seq<char> {
    match s {
        FindingSeverity::Improved => "<li><span class=\"pos\">[improved]</span> "@,
        FindingSeverity::Regressed => "<li><span class=\"neg\">[regressed]</span> "@,
        FindingSeverity::Neutral => "<li><span class=\"muted\">[neutral]</span> "@,
    }
}

/// A finding.
pub open spec fn finding_html(f: FindingView) -> Seq<PieceView> {
    seq![txt(severity_class(f.severity)), txt(escaped(f.category)), txt(": "@)] + escaped_pieces(
        f.message,
    ) + (if f.detail.len() == 0 {
        Seq::<PieceView>::empty()
    } else {
        seq![txt(" ("@)] + escaped_pieces(f.detail) + seq![txt(")"@)]
    }) + seq![txt("</li>"@)]
}

pub open spec fn findings_list(f: Seq<FindingView>, n: int) -> Seq<PieceView>
    decreases n,
{
    if n <= 0 {
        Seq::empty()
    } else {
        findings_list(f, n - 1) + finding_html(f[n - 1])
    }
}

/// The findings of a comparison.
pub open spec fn findings_html(f: Seq<FindingView>) -> Seq<PieceView> {
    if f.len() == 0 {
        Seq::empty()
    } else {
        seq![txt("<ul class=\"findings\">"@)] + findings_list(f, f.len() as int) + seq![
            txt("</ul>"@),
        ]
    }
}

#[verifier::rlimit(30)]
fn put_finding(d: &mut Doc, f: &Finding)
    ensures
        doc_view(final(d)@) == doc_view(old(d)@) + finding_html(f@),
{
    let ghost before = doc_view(d@);
    match f.severity {
        FindingSeverity::Improved => put(d, "<li><span class=\"pos\">[improved]</span> "),
        FindingSeverity::Regressed => put(d, "<li><span class=\"neg\">[regressed]</span> "),
        FindingSeverity::Neutral => put(d, "<li><span class=\"muted\">[neutral]</span> "),
    }
    put(d, esc(f.category).as_str());
    put(d, ": ");
    put_escaped(d, &f.message);
    if f.detail.len() > 0 {
        put(d, " (");
        put_escaped(d, &f.detail);
        put(d, ")");
    }
    put(d, "</li>");
    assert(doc_view(d@) =~= before + finding_html(f@));
}

fn put_findings(d: &mut Doc, f: &Vec<Finding>)
    ensures
        doc_view(final(d)@) == doc_view(old(d)@) + findings_html(finding_views(f@)),
{
    let ghost before = doc_view(d@);
    if f.len() == 0 {
        assert(doc_view(d@) =~= before + findings_html(finding_views(f@)));
        return;
    }
    put(d, "<ul class=\"findings\">");
    let ghost mid = doc_view(d@);
    let ghost views = finding_views(f@);
    let mut k: usize = 0;
    assert(mid + findings_list(views, 0) =~= mid);
    while k < f.len()
        invariant
            k <= f@.len(),
            views == finding_views(f@),
            doc_view(d@) == mid + findings_list(views, k as int),
        decreases f@.len() - k,
    {
        put_finding(d, &f[k]);
        assert(views[k as int] == f@[k as int]@);
        assert(doc_view(d@) =~= mid + findings_list(views, k + 1));
        k = k + 1;
    }
    put(d, "</ul>");
    assert(doc_view(d@) =~= before + findings_html(finding_views(f@)));
}

/// The longest of the long tasks; zero where there is none.
pub open spec fn worst_task(s: SummaryResult) -> int {
    if s.long_tasks_top@.len() > 0 {
        s.long_tasks_top@[0] as int
    } else {
        0
    }
}

fn find_worst(s: &SummaryResult) -> (r: i128)
    ensures
        r == worst_task(*s),
{
    if s.long_tasks_top.len() > 0 {
        s.long_tasks_top[0] as i128
    } else {
        0
    }
}

/// A row of two figures and the change between them.
pub open spec fn change_row(
    label: Seq<char>,
    a: Seq<PieceView>,
    b: Seq<PieceView>,
    from: Ratio,
    to: Ratio,
) -> Seq<Seq<PieceView>> {
    seq![seq![txt(label)], a, b, change_html(from, to)]
}

fn make_row(label: &str, a: Doc, b: Doc, from: Ratio, to: Ratio) -> (row: Vec<Doc>)
    requires
        ratio_fits(from),
        ratio_fits(to),
    ensures
        cells_view(row@) == change_row(label@, doc_view(a@), doc_view(b@), from, to),
{
    let mut row: Vec<Doc> = Vec::new();
    let ghost (va, vb) = (doc_view(a@), doc_view(b@));
    row.push(plain(label));
    row.push(a);
    row.push(b);
    row.push(change_cell(from, to));
    assert(cells_view(row@) =~= change_row(label@, va, vb, from, to));
    row
}

/// An average count without decimals.
pub open spec fn avg_pieces(r: Ratio) -> Seq<PieceView> {
    figure_pieces(r.num as int, r.den as int, 1, 0, false, ""@)
}

/// The quick figures of two traces.
pub open spec fn quick_rows(a: Analyzed, b: Analyzed) -> Seq<Seq<Seq<PieceView>>> {
    let (sa, sb) = (a.summary, b.summary);
    let rows = seq![
        change_row(
            "Long tasks"@,
            seq![txt(decimal(sa.long_task_count as nat))],
            seq![txt(decimal(sb.long_task_count as nat))],
            whole(sa.long_task_count as int),
            whole(sb.long_task_count as int),
        ),
        change_row(
            "Worst task"@,
            dur_pieces(whole(worst_task(sa))),
            dur_pieces(whole(worst_task(sb))),
            whole(worst_task(sa)),
            whole(worst_task(sb)),
        ),
        change_row(
            "Main thread busy"@,
            dur_pieces(whole(sa.main_thread_busy as int)),
            dur_pieces(whole(sb.main_thread_busy as int)),
            whole(sa.main_thread_busy as int),
            whole(sb.main_thread_busy as int),
        ),
        change_row(
            "Layout dirty (avg)"@,
            avg_pieces(a.layout_dirty.avg_dirty),
            avg_pieces(b.layout_dirty.avg_dirty),
            a.layout_dirty.avg_dirty,
            b.layout_dirty.avg_dirty,
        ),
    ];
    if a.style_recalc.total_count > 0 || b.style_recalc.total_count > 0 {
        rows.push(
            change_row(
                "Style elements (avg)"@,
                avg_pieces(a.style_recalc.avg_elements),
                avg_pieces(b.style_recalc.avg_elements),
                a.style_recalc.avg_elements,
                b.style_recalc.avg_elements,
            ),
        )
    } else {
        rows
    }
}

#[verifier::rlimit(30)]
fn list_quick(a: &Analyzed, b: &Analyzed) -> (rows: Vec<Vec<Doc>>)
    requires
        comparable(*a),
        comparable(*b),
    ensures
        rows_view(rows@) == quick_rows(*a, *b),
{
    let (sa, sb) = (&a.summary, &b.summary);
    let mut rows: Vec<Vec<Doc>> = Vec::new();
    rows.push(
        make_row(
            "Long tasks",
            count(sa.long_task_count),
            count(sb.long_task_count),
            make_whole(sa.long_task_count as i128),
            make_whole(sb.long_task_count as i128),
        ),
    );
    let (wa, wb) = (find_worst(sa), find_worst(sb));
    rows.push(
        make_row(
            "Worst task",
            dur(make_whole(wa)),
            dur(make_whole(wb)),
            make_whole(wa),
            make_whole(wb),
        ),
    );
    rows.push(
        make_row(
            "Main thread busy",
            dur(make_whole(sa.main_thread_busy)),
            dur(make_whole(sb.main_thread_busy)),
            make_whole(sa.main_thread_busy),
            make_whole(sb.main_thread_busy),
        ),
    );
    let (da, db) = (a.layout_dirty.avg_dirty, b.layout_dirty.avg_dirty);
    rows.push(
        make_row(
            "Layout dirty (avg)",
            figure(da.num, da.den, 1, 0, false, ""),
            figure(db.num, db.den, 1, 0, false, ""),
            da,
            db,
        ),
    );
    if a.style_recalc.total_count > 0 || b.style_recalc.total_count > 0 {
        let (ea, eb) = (a.style_recalc.avg_elements, b.style_recalc.avg_elements);
        rows.push(
            make_row(
                "Style elements (avg)",
                figure(ea.num, ea.den, 1, 0, false, ""),
                figure(eb.num, eb.den, 1, 0, false, ""),
                ea,
                eb,
            ),
        );
    }
    assert(rows_view(rows@) =~= quick_rows(*a, *b));
    rows
}

/// A cost of two averages.
pub open spec fn cost_row(label: Seq<char>, a: Ratio, b: Ratio) -> Seq<Seq<PieceView>> {
    change_row(label, dur_pieces(a), dur_pieces(b), a, b)
}

/// The costs of the average scroll task in two traces.
pub open spec fn cost_rows(a: FrameAverages, b: FrameAverages) -> Seq<Seq<Seq<PieceView>>> {
    seq![
        cost_row("Duration"@, a.dur, b.dur),
        cost_row("JS"@, a.js, b.js),
        cost_row("Style"@, a.ult, b.ult),
        cost_row("Layout"@, a.layout, b.layout),
        cost_row("Paint"@, a.paint, b.paint),
        cost_row("Composite"@, a.composite, b.composite),
        cost_row("HitTest"@, a.hit_test, b.hit_test),
    ]
}

fn make_cost_row(label: &str, a: Ratio, b: Ratio) -> (row: Vec<Doc>)
    requires
        ratio_fits(a),
        ratio_fits(b),
    ensures
        cells_view(row@) == cost_row(label@, a, b),
{
    make_row(label, dur(a), dur(b), a, b)
}

/// The comparison of scroll frames, where both traces have some.
pub open spec fn scroll_compare_html(a: ScrollFrameResult, b: ScrollFrameResult) -> Seq<PieceView> {
    if a.tasks@.len() == 0 || b.tasks@.len() == 0 {
        Seq::empty()
    } else {
        seq![txt("<h3>Scroll frame comparison (avg per task)</h3>"@)] + table_html(
            seq!["category", "A", "B", "change"],
            cost_rows(a.avg, b.avg),
        )
    }
}

#[verifier::rlimit(30)]
fn put_scroll_compare(d: &mut Doc, a: &ScrollFrameResult, b: &ScrollFrameResult)
    requires
        frames_fit(*a),
        frames_fit(*b),
    ensures
        doc_view(final(d)@) == doc_view(old(d)@) + scroll_compare_html(*a, *b),
{
    let ghost before = doc_view(d@);
    if a.tasks.len() > 0 && b.tasks.len() > 0 {
        put(d, "<h3>Scroll frame comparison (avg per task)</h3>");
        let (x, y) = (&a.avg, &b.avg);
        let mut rows: Vec<Vec<Doc>> = Vec::new();
        rows.push(make_cost_row("Duration", x.dur, y.dur));
        rows.push(make_cost_row("JS", x.js, y.js));
        rows.push(make_cost_row("Style", x.ult, y.ult));
        rows.push(make_cost_row("Layout", x.layout, y.layout));
        rows.push(make_cost_row("Paint", x.paint, y.paint));
        rows.push(make_cost_row("Composite", x.composite, y.composite));
        rows.push(make_cost_row("HitTest", x.hit_test, y.hit_test));
        assert(rows_view(rows@) =~= cost_rows(a.avg, b.avg));
        let headers = vec!["category", "A", "B", "change"];
        assert(headers@ =~= seq!["category", "A", "B", "change"]);
        table(d, &headers, &rows);
    }
    assert(doc_view(d@) =~= before + scroll_compare_html(*a, *b));
}

/// How many functions the comparison lists.
pub const TOP_DIFF: usize = 20;

/// A function in two traces: its shares, and by how many points they differ.
pub open spec fn diff_cells(f: CpuFunctionDiff) -> Seq<Seq<PieceView>> {
    let (a, b) = (f.share_a, f.share_b);
    seq![
        figure_pieces(a.num as int, a.den as int, 100, 1, false, "%"@),
        figure_pieces(b.num as int, b.den as int, 100, 1, false, "%"@),
        figure_pieces(b.num * a.den - a.num * b.den, a.den * b.den, 100, 1, true, "pp"@),
        seq![txt(source_label(f.source_type))],
        seq![txt(escaped(shown_name(f.function_name@)))],
    ]
}

pub open spec fn diff_table(s: Seq<CpuFunctionDiff>, n: int) -> Seq<Seq<Seq<PieceView>>>
    decreases n,
{
    if n <= 0 {
        Seq::empty()
    } else {
        diff_table(s, n - 1).push(diff_cells(s[n - 1]))
    }
}

/// The comparison of sampled functions.
pub open spec fn diff_html(s: Seq<CpuFunctionDiff>) -> Seq<PieceView> {
    if s.len() == 0 {
        Seq::empty()
    } else {
        seq![txt("<h3>CPU profile diff</h3>"@)] + table_html(
            seq!["A %", "B %", "Δ pp", "source", "function"],
            diff_table(s, shown_rows(TOP_DIFF, s.len())),
        )
    }
}

pub open spec fn shares_fit(s: Seq<CpuFunctionDiff>) -> bool {
    forall|k: int|
        0 <= k < s.len() ==> share_fits((#[trigger] s[k]).share_a) && share_fits(s[k].share_b)
}

#[verifier::rlimit(30)]
fn make_diff_row(f: &CpuFunctionDiff) -> (row: Vec<Doc>)
    requires
        share_fits(f.share_a),
        share_fits(f.share_b),
    ensures
        cells_view(row@) == diff_cells(*f),
{
    let (a, b) = (f.share_a, f.share_b);
    proof {
        let (an, ad, bn, bd) = (a.num as int, a.den as int, b.num as int, b.den as int);
        let m = i64::MAX as int;
        assert(0 <= bn * ad <= m * m && 0 <= an * bd <= m * m && 0 <= ad * bd <= m * m)
            by (nonlinear_arith)
            requires
                0 <= an <= m,
                1 <= ad <= m,
                0 <= bn <= m,
                1 <= bd <= m,
        ;
    }
    let mut row: Vec<Doc> = Vec::new();
    row.push(figure(a.num, a.den, 100, 1, false, "%"));
    row.push(figure(b.num, b.den, 100, 1, false, "%"));
    row.push(figure(b.num * a.den - a.num * b.den, a.den * b.den, 100, 1, true, "pp"));
    row.push(plain(f.source_type.label()));
    let name = if f.function_name.as_str().is_empty() {
        "(anonymous)"
    } else {
        f.function_name.as_str()
    };
    row.push(plain(esc(name).as_str()));
    assert(cells_view(row@) =~= diff_cells(*f));
    row
}

fn put_diff(d: &mut Doc, s: &Vec<CpuFunctionDiff>)
    requires
        shares_fit(s@),
    ensures
        doc_view(final(d)@) == doc_view(old(d)@) + diff_html(s@),
{
    let ghost before = doc_view(d@);
    if s.len() > 0 {
        put(d, "<h3>CPU profile diff</h3>");
        let n: usize = if s.len() > TOP_DIFF {
            TOP_DIFF
        } else {
            s.len()
        };
        let mut rows: Vec<Vec<Doc>> = Vec::new();
        let mut i: usize = 0;
        assert(rows_view(rows@) =~= diff_table(s@, 0));
        while i < n
            invariant
                i <= n <= s@.len(),
                shares_fit(s@),
                rows_view(rows@) == diff_table(s@, i as int),
            decreases n - i,
        {
            assert(share_fits(s@[i as int].share_a));
            let row = make_diff_row(&s[i]);
            let ghost old_rows = rows@;
            rows.push(row);
            assert(rows_view(rows@) =~= rows_view(old_rows).push(diff_cells(s@[i as int])));
            i = i + 1;
        }
        let headers = vec!["A %", "B %", "Δ pp", "source", "function"];
        assert(headers@ =~= seq!["A %", "B %", "Δ pp", "source", "function"]);
        table(d, &headers, &rows);
    }
    assert(doc_view(d@) =~= before + diff_html(s@));
}

/// The section that compares two traces.
pub open spec fn compare_html(a: Analyzed, o: Option<Other>) -> Seq<PieceView> {
    match o {
        Some(x) => section_html("Comparison: A vs "@ + x.name@) + findings_html(
            finding_views(x.compare.findings@),
        ) + table_html(seq!["metric", "A", "B", "change"], quick_rows(a, *x.analyzed))
            + scroll_compare_html(a.scroll_frames, x.analyzed.scroll_frames) + diff_html(
            x.compare.cpu_diff@,
        ) + seq![txt("</section>"@)],
        None => Seq::empty(),
    }
}

proof fn lemma_all_shares(a: CpuProfileResult, b: CpuProfileResult, rows: Seq<CpuFunctionDiff>)
    requires
        times_fit(a),
        times_fit(b),
        func_rows(a, b, rows),
    ensures
        shares_fit(rows),
{
    assert forall|k: int| 0 <= k < rows.len() implies share_fits((#[trigger] rows[k]).share_a)
        && share_fits(rows[k].share_b) by {
        lemma_shares_fit(a, b, rows, k);
    }
}

#[verifier::spinoff_prover]
#[verifier::rlimit(40)]
fn put_compare(d: &mut Doc, a: &Analyzed, o: &Other)
    requires
        comparable(*a),
        comparable(*o.analyzed),
        comparison_of(*a, *o.analyzed, o.compare),
    ensures
        doc_view(final(d)@) == doc_view(old(d)@) + compare_html(*a, Some(*o)),
{
    let ghost before = doc_view(d@);
    let mut title = String::new();
    title.append("Comparison: A vs ");
    title.append(o.name.as_str());
    assert(title@ =~= "Comparison: A vs "@ + o.name@);
    section(d, title.as_str());
    put_findings(d, &o.compare.findings);
    let rows = list_quick(a, o.analyzed);
    let headers = vec!["metric", "A", "B", "change"];
    assert(headers@ =~= seq!["metric", "A", "B", "change"]);
    table(d, &headers, &rows);
    put_scroll_compare(d, &a.scroll_frames, &o.analyzed.scroll_frames);
    proof {
        lemma_all_shares(a.cpu_profile, o.analyzed.cpu_profile, o.compare.cpu_diff@);
    }
    put_diff(d, &o.compare.cpu_diff);
    put(d, "</section>");
    assert(doc_view(d@) =~= before + compare_html(*a, Some(*o)));
}

/// What stands on top: the trace, what its metadata tell, and the first figures.
pub open spec fn top_html(app: App) -> Seq<PieceView> {
    let a = *app.analyzed;
    head_html(app.trace_name_a@) + meta_html(app.metadata) + throttle_html(app.throttle_factor)
        + cards_html(a.summary, a.jank.total_dropped)
}

/// The first sections on the one trace: memory, functions, event types.
pub open spec fn first_html(a: Analyzed, x: Details) -> Seq<PieceView> {
    memory_html(json_opt(x.memory)) + cpu_html(a.cpu_profile) + events_html(a.summary.event_stats@)
}

/// What was waited for: input and asynchronous tasks.
pub open spec fn waits_html(x: Details) -> Seq<PieceView> {
    input_html(json_opt(x.input)) + tasks_html(json_opt(x.tasks))
}

/// The sections on frames: jank and scrolling.
pub open spec fn frames_html(a: Analyzed) -> Seq<PieceView> {
    jank_html(a.jank) + scroll_html(a.scroll_frames)
}

/// The sections on the one trace.
pub open spec fn sections_html(a: Analyzed, x: Details) -> Seq<PieceView> {
    first_html(a, x) + waits_html(x) + frames_html(a)
}

/// The sections on both traces.
pub open spec fn both_html(a: Analyzed, o: Option<Other>, x: Details) -> Seq<PieceView> {
    compare_html(a, o) + if o is Some {
        memory_pair_html(json_opt(x.memory), json_opt(x.memory_b))
    } else {
        Seq::empty()
    }
}

/// The whole report.
pub open spec fn report_html(app: App, x: Details) -> Seq<PieceView> {
    top_html(app) + sections_html(*app.analyzed, x) + both_html(*app.analyzed, app.other, x)
        + seq![txt("<footer>Generated by <code>chperf</code></footer></div></body></html>"@)]
}

fn put_top(d: &mut Doc, app: &App)
    ensures
        doc_view(final(d)@) == doc_view(old(d)@) + top_html(*app),
{
    let ghost before = doc_view(d@);
    let a = app.analyzed;
    put_head(d, app.trace_name_a.as_str());
    put_meta(d, app.metadata, app.throttle_factor);
    put_cards(d, &a.summary, a.jank.total_dropped);
    assert(doc_view(d@) =~= before + top_html(*app));
}

#[verifier::spinoff_prover]
#[verifier::rlimit(30)]
fn put_first(d: &mut Doc, a: &Analyzed, x: &Details)
    requires
        times_fit(a.cpu_profile),
    ensures
        doc_view(final(d)@) == doc_view(old(d)@) + first_html(*a, *x),
{
    let ghost before = doc_view(d@);
    put_memory(d, x.memory);
    put_cpu(d, &a.cpu_profile);
    put_events(d, &a.summary.event_stats);
    assert(doc_view(d@) =~= before + first_html(*a, *x));
}

#[verifier::spinoff_prover]
#[verifier::rlimit(30)]
fn put_waits(d: &mut Doc, x: &Details)
    ensures
        doc_view(final(d)@) == doc_view(old(d)@) + waits_html(*x),
{
    let ghost before = doc_view(d@);
    put_input(d, x.input);
    put_tasks(d, x.tasks);
    assert(doc_view(d@) =~= before + waits_html(*x));
}

#[verifier::spinoff_prover]
#[verifier::rlimit(30)]
fn put_frames(d: &mut Doc, a: &Analyzed)
    ensures
        doc_view(final(d)@) == doc_view(old(d)@) + frames_html(*a),
{
    let ghost before = doc_view(d@);
    put_jank(d, &a.jank);
    put_scroll(d, &a.scroll_frames);
    assert(doc_view(d@) =~= before + frames_html(*a));
}

#[verifier::spinoff_prover]
#[verifier::rlimit(30)]
fn put_sections(d: &mut Doc, a: &Analyzed, x: &Details)
    requires
        times_fit(a.cpu_profile),
    ensures
        doc_view(final(d)@) == doc_view(old(d)@) + sections_html(*a, *x),
{
    let ghost before = doc_view(d@);
    put_first(d, a, x);
    put_waits(d, x);
    put_frames(d, a);
    assert(doc_view(d@) =~= before + sections_html(*a, *x));
}

fn put_both(d: &mut Doc, app: &App, x: &Details)
    requires
        app.wf(),
    ensures
        doc_view(final(d)@) == doc_view(old(d)@) + both_html(*app.analyzed, app.other, *x),
{
    let ghost before = doc_view(d@);
    if let Some(o) = &app.other {
        put_compare(d, app.analyzed, o);
        put_memory_pair(d, x.memory, x.memory_b);
    }
    assert(doc_view(d@) =~= before + both_html(*app.analyzed, app.other, *x));
}

/// The report on a trace, or on two that are compared, as one HTML file.
pub fn export_html(app: &App, x: &Details) -> (d: Doc)
    requires
        app.wf(),
    ensures
        doc_view(d@) == report_html(*app, *x),
{
    let mut d = nothing();
    put_top(&mut d, app);
    put_sections(&mut d, app.analyzed, x);
    put_both(&mut d, app, x);
    put(&mut d, "<footer>Generated by <code>chperf</code></footer></div></body></html>");
    assert(doc_view(d@) =~= report_html(*app, *x));
    d
}

} // verus!
