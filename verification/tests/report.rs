//! Analyses, comparisons and the report.

use chperf::analysis::common::Ratio;
use chperf::analysis::compare::{analyze_compare, pct_diff, FindingSeverity};
use chperf::analysis::cpu::check_fits;
use chperf::analysis::jank::analyze_jank;
use chperf::analysis::layout::analyze_layout_dirty;
use chperf::analysis::scroll::analyze_scroll_frames;
use chperf::analysis::style::analyze_style_recalc;
use chperf::analysis::summary::{analyze_summary, target_key};
use chperf::chart::{decimate, line_chart};
use chperf::details::Details;
use chperf::doc::Piece;
use chperf::html::{change_cell, dur, esc, export_html, metric, plain, section, table};
use chperf::json::parse_json;
use chperf::report::{analyze, can_compare, find_throttle, App};
use chperf::trace::event::TraceEvent;
use chperf::trace::file::TraceMetadata;
use chperf::trace::load::{parse_trace, take_events};

const TINY: &str = r#"{"traceEvents":[
{"name":"thread_name","cat":"__metadata","ph":"M","ts":0,"pid":2,"tid":1,"args":{"name":"CrRendererMain"}},
{"name":"Profile","cat":"v8","ph":"P","ts":1000000,"pid":2,"tid":65},
{"name":"RunTask","cat":"toplevel","ph":"X","ts":1000000,"dur":600000,"pid":2,"tid":1},
{"name":"RunTask","cat":"toplevel","ph":"X","ts":1700000,"dur":20000,"pid":2,"tid":1},
{"name":"FunctionCall","cat":"devtools.timeline","ph":"X","ts":1005000,"dur":40000,"pid":2,"tid":1,"args":{"data":{"functionName":"shoot","url":"http://x/weapon.ts"}}},
{"name":"WebSocketSend","cat":"net","ph":"X","ts":1006000,"dur":10,"pid":2,"tid":1,"args":{"data":{"msg":"player_shoot"}}},
{"name":"MajorGC","cat":"v8","ph":"X","ts":1002000,"dur":5000,"pid":2,"tid":1},
{"name":"MinorGC","cat":"v8","ph":"X","ts":1010000,"dur":1000,"pid":2,"tid":1},
{"name":"SubmitCompositorFrameToPresentationCompositorFrame","ph":"b","ts":1000000,"pid":2,"tid":1},
{"name":"SubmitCompositorFrameToPresentationCompositorFrame","ph":"e","ts":1016000,"pid":2,"tid":1},
{"name":"SubmitCompositorFrameToPresentationCompositorFrame","ph":"b","ts":1017000,"pid":2,"tid":1},
{"name":"SubmitCompositorFrameToPresentationCompositorFrame","ph":"e","ts":1037000,"pid":2,"tid":1},
{"name":"DroppedFrame","ph":"I","ts":1003000,"pid":2,"tid":1},
{"name":"DroppedFrame","ph":"I","ts":1004000,"pid":2,"tid":1},
{"name":"ProfileChunk","cat":"v8","ph":"P","ts":1055000,"pid":2,"tid":65,"args":{"data":{"cpuProfile":{"nodes":[{"id":1,"callFrame":{"functionName":"(root)","url":""}},{"id":2,"callFrame":{"functionName":"shoot","url":"http://x/weapon.ts"},"parent":1},{"id":3,"callFrame":{"functionName":"update","url":"http://x/game.ts"},"parent":1}],"samples":[2,3,2,3,2,3,2]},"timeDeltas":[5000,5000,5000,5000,5000,5000,5000]}}},
{"name":"ProfileChunk","cat":"v8","ph":"P","ts":1095000,"pid":2,"tid":65,"args":{"data":{"cpuProfile":{"nodes":[{"id":1,"callFrame":{"functionName":"(root)","url":""}},{"id":4,"callFrame":{"functionName":"shoot","url":"http://x/weapon.ts"},"parent":1}],"samples":[4,4,4,4]},"timeDeltas":[4000,3000,-1000,4000]}}}
],"metadata":{"source":"DevTools"}}"#;

fn load(text: &str) -> Vec<TraceEvent> {
    let opened = match parse_trace("tiny.json", "tiny.json", text.as_bytes().to_vec(), 1) {
        Ok(o) => o,
        Err(e) => panic!("{}", e.message()),
    };
    take_events(opened.units.expect("layout")).expect("events")
}

fn text(d: &[Piece]) -> String {
    let mut s = String::new();
    for p in d {
        match p {
            Piece::Text(t) => s.push_str(t),
            Piece::Number(n) => {
                let v = if n.den == 0 {
                    0.0
                } else {
                    n.times as f64 * n.num as f64 / n.den as f64 / n.per as f64
                };
                let v = if n.neg { -v } else { v };
                let places = n.decimals as usize;
                if n.plus {
                    s.push_str(&format!("{:+.*}", places, v));
                } else {
                    s.push_str(&format!("{:.*}", places, v));
                }
            },
        }
    }
    s
}

fn whole(n: i128) -> Ratio {
    Ratio { num: n, den: 1 }
}

fn no_details() -> Details<'static> {
    Details { memory: None, input: None, tasks: None, memory_b: None }
}

#[test]
fn text_is_escaped_for_html() {
    assert_eq!(esc("a<b> & \"c\""), "a&lt;b&gt; &amp; &quot;c&quot;");
    assert_eq!(esc("&lt;"), "&amp;lt;");
    for c in esc("<<>>\"\"&&x").chars() {
        assert!(c != '<' && c != '>' && c != '"');
    }
}

#[test]
fn blocks_of_html() {
    let mut d = Vec::new();
    table(&mut d, &vec!["a<", "b"], &vec![vec![plain("x"), plain("1")]]);
    assert_eq!(
        text(&d),
        "<table><thead><tr><th>a&lt;</th><th>b</th></tr></thead><tbody><tr><td>x</td><td class=\"num\">1</td></tr></tbody></table>"
    );
    let mut d = Vec::new();
    section(&mut d, "A & B");
    assert_eq!(text(&d), "<section class=\"section\"><h2>A &amp; B</h2>");
    let mut d = Vec::new();
    metric(&mut d, "L", &plain("<b>1</b>"), &plain("s>"));
    assert_eq!(
        text(&d),
        "<div class=\"metric\"><div class=\"metric-value\"><b>1</b></div><div class=\"metric-label\">L</div><div class=\"metric-sub\">s&gt;</div></div>"
    );
    let mut d = Vec::new();
    metric(&mut d, "L", &plain("1"), &vec![]);
    assert!(!text(&d).contains("metric-sub"));
}

#[test]
fn times_get_the_unit_that_suits_them() {
    assert_eq!(text(&dur(whole(0))), "0");
    assert_eq!(text(&dur(whole(9))), "0");
    assert_eq!(text(&dur(whole(500_000))), "500us");
    assert_eq!(text(&dur(whole(1_000_000))), "1.00ms");
    assert_eq!(text(&dur(whole(-2_500_000_000))), "-2.50s");
    assert_eq!(text(&dur(Ratio { num: 7_000_000, den: 2 })), "3.50ms");
}

#[test]
fn changes_are_marked() {
    let cell = |a: i128, b: i128| text(&change_cell(whole(a), whole(b)));
    assert_eq!(cell(0, 0), "<span class=\"muted\">—</span>");
    assert_eq!(cell(0, 5), "<span class=\"pos\">new</span>");
    assert_eq!(cell(100, 150), "<span class=\"neg\">+50%</span>");
    assert_eq!(cell(100, 50), "<span class=\"pos\">-50%</span>");
    assert_eq!(cell(100, 105), "<span class=\"muted\">+5%</span>");
    assert_eq!(cell(100, 98), "<span class=\"muted\">-2%</span>");
}

#[test]
fn charts_are_drawn() {
    assert!(text(&line_chart("t", &vec![(0, 1)], 1, "", "#000")).ends_with("No data.</div>"));
    let c = text(&line_chart("Heap <MB>", &vec![(0, 0), (1_000_000_000, 20)], 1, "", "#abc"));
    assert!(c.starts_with("<div class=\"chart-title\">Heap &lt;MB&gt;</div><svg class=\"chart\" viewBox=\"0 0 1000 260\""), "{c}");
    assert!(c.contains("class=\"axis\">21.0</text>"), "{c}");
    assert!(c.contains("class=\"axis\">-1.0</text>"), "{c}");
    assert!(c.contains("M64.00 220.18 L984.00 23.82"), "{c}");
    assert!(c.contains(">1000.0ms</text>"), "{c}");
    let points: Vec<(i64, i64)> = (0..1000).map(|i| (i, i)).collect();
    let p = decimate(&points, 700);
    assert_eq!(p.len(), 700);
    assert_eq!((p[0], p[699], p[1]), ((0, 0), (999, 999), (1, 1)));
    assert_eq!(decimate(&points, 2000).len(), 1000);
}

#[test]
fn the_report_tells_the_trace() {
    let events = load(TINY);
    assert!(check_fits(&events));
    let a = analyze(&events);
    assert_eq!(a.main_tid, 1);
    let meta = TraceMetadata {
        cpu_throttling: Some("4".to_string()),
        source: None,
        start_time: None,
        network_throttling: None,
        hardware_concurrency: None,
        host_dpr: Some("1.5".to_string()),
        page_url: Some("http://x/?a&b".to_string()),
    };
    let app = App::new(&a, None, "tiny<".to_string(), Some(&meta), None);
    let h = text(&export_html(&app, &no_details()));
    assert!(h.starts_with("<!DOCTYPE html>\n<html lang=\"en\">"));
    assert!(h.contains("<title>chperf: tiny&lt;</title>"));
    assert!(h.contains("URL: <code>http://x/?a&amp;b</code>"));
    assert!(h.contains("DPR: 1.50"));
    assert!(h.contains("CPU throttle 4x applied — divide times by 4 for real-world."));
    assert!(h.contains("<div class=\"metric-value\">720.00ms</div><div class=\"metric-label\">Duration</div>"));
    assert!(h.contains("<tr><td>43.5%</td><td class=\"num\">app</td><td class=\"num\">shoot</td><td class=\"num\">20.00ms</td><td class=\"num\">43.5%</td><td class=\"num\">weapon.ts</td></tr>"));
    assert!(h.ends_with("</div></body></html>"));
    assert!(!h.contains("Comparison"));

    assert!(can_compare(&a));
    let app = App::new(&a, Some((&a, "other".to_string())), "tiny".to_string(), None, Some(500));
    let h = text(&export_html(&app, &no_details()));
    assert!(h.contains("<h2>Comparison: A vs other</h2>"));
    assert!(!h.contains("findings\">"));
    assert!(!h.contains("CPU throttle"));
}

#[test]
fn the_report_draws_memory_input_and_tasks() {
    let events = load(TINY);
    let a = analyze(&events);
    let memory = parse_json(
        r#"{"summary":{"samples":2,"first_heap_mb":10.5,"growth_mb":2.3,"peak_heap_mb":12.8,"peak_nodes":1200,"peak_listeners":30,"peak_documents":4},"samples":[{"t_us":0,"heap_mb":10.5,"nodes":1000},{"t_us":1000000,"heap_mb":12.8,"nodes":1200}]}"#,
    )
    .expect("memory");
    let memory_b = parse_json(r#"{"summary":{"samples":1,"growth_mb":-0.5,"peak_heap_mb":3}}"#).expect("memory");
    let input = parse_json(
        r#"{"types":[{"type":"cl<ick","count":3,"total_us":6000,"avg_us":2000,"p50_us":1000,"p99_us":4000,"max_us":4000}],"worst":[{"t_us":12340,"dur_us":4000,"type":"cl<ick"}]}"#,
    )
    .expect("input");
    let tasks = parse_json(r#"{"tasks":[{"name":"fetch","count":-1.5,"total_us":7}],"longest":[]}"#).expect("tasks");
    let details = Details {
        memory: Some(&memory),
        input: Some(&input),
        tasks: Some(&tasks),
        memory_b: Some(&memory_b),
    };
    let one = App::new(&a, None, "tiny".to_string(), None, None);
    let h = text(&export_html(&one, &details));
    assert!(h.contains("<h2>Memory timeline</h2><div class=\"metrics\"><div class=\"metric\"><div class=\"metric-value\">10.5 MB</div><div class=\"metric-label\">JS heap (start → end)</div></div>"));
    assert!(h.contains("<div class=\"metric-value\">+2.3 MB</div>"));
    assert!(h.contains("<div class=\"metric-sub\">peak 12.8 MB</div>"));
    assert!(h.contains("<div class=\"metric-value\">1200</div>"));
    assert!(h.contains("<div class=\"metric-value\">30 / 4</div>"));
    assert!(h.contains("<div class=\"chart-title\">DOM nodes</div><svg"));
    assert!(h.contains("<tr><td>cl&lt;ick</td><td class=\"num\">3</td><td class=\"num\">6.00ms</td><td class=\"num\">2.00ms</td><td class=\"num\">1.00ms</td><td class=\"num\">4.00ms</td><td class=\"num\">4.00ms</td></tr>"));
    assert!(h.contains("<h3>Worst inputs</h3>"));
    assert!(h.contains("<tr><td>12.34ms</td><td class=\"num\">4.00ms</td><td class=\"num\">cl&lt;ick</td></tr>"));
    assert!(h.contains("<h2>Async tasks (s/f paired)</h2>"));
    assert!(h.contains("<tr><td>fetch</td><td class=\"num\">0</td><td class=\"num\">7us</td><td class=\"num\">0</td>"));
    assert!(!h.contains("Longest tasks"));
    assert!(!h.contains("Memory comparison"));
    let order = ["Memory timeline", "CPU profile", "Event breakdown", "Input latency", "Async tasks", "Jank clusters"];
    let places: Vec<usize> = order.iter().map(|t| h.find(t).expect("section")).collect();
    assert!(places.windows(2).all(|w| w[0] < w[1]));

    let both = App::new(&a, Some((&a, "other".to_string())), "tiny".to_string(), None, None);
    let h = text(&export_html(&both, &details));
    assert!(h.contains("<h2>Memory comparison</h2>"));
    assert!(h.contains("<div class=\"metric-value\">-0.5 MB</div><div class=\"metric-label\">Heap growth B</div>"));
    assert!(h.contains("JS heap — B (MB)</div><div class=\"muted\">No data.</div>"));
}

#[test]
fn the_throttle_factor_comes_from_the_flag_or_the_metadata() {
    let meta = TraceMetadata {
        cpu_throttling: Some("20".to_string()),
        source: None,
        start_time: None,
        network_throttling: None,
        hardware_concurrency: None,
        host_dpr: None,
        page_url: None,
    };
    assert_eq!(find_throttle(None, None), 1000);
    assert_eq!(find_throttle(None, Some(&meta)), 20_000);
    assert_eq!(find_throttle(Some(2_000), Some(&meta)), 2_000);
    assert_eq!(find_throttle(Some(500), None), 1000);
}

#[test]
fn the_summary_counts_long_tasks() {
    let events = load(TINY);
    let s = analyze_summary(&events, 1);
    assert_eq!(s.long_task_count, 1);
    assert_eq!(s.long_tasks_top, [600_000_000]);
    assert_eq!(s.total_trace_duration, 720_000_000);
    assert_eq!(s.main_thread_busy, 620_000_000);
    assert!(target_key("RunTask").is_some());
    assert!(target_key("Nothing").is_none());
}

fn with_counts(name: &str, args: &str) -> Vec<TraceEvent> {
    load(&format!(
        "{{\"traceEvents\":[{{\"name\":\"{name}\",\"ph\":\"X\",\"ts\":1,\"dur\":2,\"tid\":1,\"args\":{args}}}]}}"
    ))
}

#[test]
fn layout_and_style_are_counted() {
    let l = analyze_layout_dirty(
        &with_counts("Layout", r#"{"beginData":{"dirtyObjects":3,"totalObjects":12}}"#),
        1,
    );
    assert_eq!(l.entries.len(), 1);
    assert_eq!((l.entries[0].dirty_count, l.entries[0].total_count, l.max_dirty), (3, 12, 3));
    assert_eq!((l.avg_dirty.num, l.avg_dirty.den), (3, 1));
    let s = analyze_style_recalc(&with_counts("UpdateLayoutTree", r#"{"elementCount":7}"#), 1);
    assert_eq!((s.total_count, s.max_elements, s.entries[0].element_count), (1, 7, 7));
}

#[test]
fn jank_finds_dropped_frames() {
    let events = load(TINY);
    let j = analyze_jank(&events, 1, None);
    assert_eq!(j.total_dropped, 2);
    assert_eq!(j.clusters[0].dropped_frames, 2);
    for (k, a) in j.clusters.iter().enumerate() {
        for b in &j.clusters[k + 1..] {
            assert!(a.end.num <= b.start.num || b.end.num <= a.start.num);
        }
    }
    let j = analyze_jank(&events, 1, Some((1_500_000_000, 1_600_000_000)));
    assert_eq!(j.total_dropped, 0);
}

#[test]
fn jank_is_ranked_by_its_worst_spike() {
    // Two runs without dropped frames: the first has the longer task, the second
    // a GPU task that is longer still.
    let events = load(
        r#"{"traceEvents":[{"name":"RunTask","ph":"X","ts":0,"dur":30000,"tid":1},{"name":"RunTask","ph":"X","ts":5000000,"dur":20000,"tid":1},{"name":"GPUTask","ph":"X","ts":5000000,"dur":45000,"tid":2},{"name":"RunTask","ph":"X","ts":10000000,"dur":1000,"tid":1}]}"#,
    );
    let j = analyze_jank(&events, 1, None);
    assert_eq!(j.total_dropped, 0);
    assert_eq!(j.clusters.len(), 2);
    assert_eq!((j.clusters[0].max_gpu, j.clusters[0].max_run), (45_000_000, 20_000_000));
    assert_eq!((j.clusters[1].max_gpu, j.clusters[1].max_run), (0, 30_000_000));
}

#[test]
fn a_trace_does_not_differ_from_itself() {
    let events = load(TINY);
    let a = analyze(&events);
    let c = analyze_compare(
        &a.summary,
        &a.summary,
        &a.scroll_frames,
        &a.scroll_frames,
        &a.cpu_profile,
        &a.cpu_profile,
        &a.layout_dirty,
        &a.layout_dirty,
        &a.style_recalc,
        &a.style_recalc,
    );
    assert!(c.findings.is_empty());
    assert!(c.scroll_avg_a.is_none() && c.scroll_avg_b.is_none());
    assert_eq!((c.scroll_count_a, c.scroll_count_b, c.scroll_pct_a.p50), (0, 0, 0));
    assert_eq!(c.summary_b.long_task_count, a.summary.long_task_count);
    assert_eq!(c.layout_a.entries.len(), a.layout_dirty.entries.len());
    assert_eq!(c.style_recalc_a.total_count, a.style_recalc.total_count);
    assert!(c.rows.iter().all(|r| r.diff.size.num == 0));
    let d = pct_diff(whole(200), whole(100));
    assert!(d.neg);
    assert_eq!(d.size.num * 2, d.size.den);
}

#[test]
fn regressions_are_told_first() {
    let a = analyze(&load(TINY));
    let slower = TINY.replace("\"ts\":1700000,\"dur\":20000", "\"ts\":1700000,\"dur\":900000");
    let b = analyze(&load(&slower));
    let c = analyze_compare(
        &a.summary,
        &b.summary,
        &a.scroll_frames,
        &b.scroll_frames,
        &a.cpu_profile,
        &b.cpu_profile,
        &a.layout_dirty,
        &b.layout_dirty,
        &a.style_recalc,
        &b.style_recalc,
    );
    assert!(!c.findings.is_empty());
    assert!(matches!(c.findings[0].severity, FindingSeverity::Regressed));
}

#[test]
fn scroll_frames_need_scrolling() {
    let events = load(TINY);
    assert!(analyze_scroll_frames(&events, 1).tasks.is_empty());
}

#[test]
fn scroll_frames_are_broken_down() {
    let events = load(
        r#"{"traceEvents":[{"name":"RunTask","ph":"X","ts":1000,"dur":100000,"tid":1},{"name":"UpdateLayoutTree","ph":"X","ts":2000,"dur":60000,"tid":1},{"name":"FunctionCall","ph":"X","ts":70000,"dur":10000,"tid":1},{"name":"Commit","ph":"X","ts":90000,"dur":2000,"tid":1},{"name":"Layerize","ph":"X","ts":93000,"dur":3000,"tid":1},{"name":"Paint","ph":"X","ts":100000,"dur":5000,"tid":1},{"name":"RunTask","ph":"X","ts":200000,"dur":10000,"tid":1},{"name":"Layout","ph":"X","ts":201000,"dur":9000,"tid":1}]}"#,
    );
    let r = analyze_scroll_frames(&events, 1);
    assert_eq!(r.tasks.len(), 1);
    let t = &r.tasks[0];
    assert_eq!((t.ts, t.dur), (1_000_000, 100_000_000));
    assert_eq!((t.ult, t.js, t.composite), (60_000_000, 10_000_000, 5_000_000));
    // The paint ends after the task.
    assert_eq!((t.paint, t.layout, t.hit_test), (0, 0, 0));
    assert_eq!(t.bottleneck(), "Style");
    assert_eq!(t.breakdown()[0], ("Style", 60_000_000));
    assert_eq!(r.avg.bottleneck(), "Style");
    assert_eq!((r.avg.ult.num, r.avg.ult.den), (60_000_000, 1));
    assert_eq!((r.percentiles.p50, r.percentiles.p99), (100_000_000, 100_000_000));
}
