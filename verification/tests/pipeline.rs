//! Whole traces through the parser and the analyses.

use chperf::analysis::cpu::{
    analyze_cpu_profile, analyze_cpu_profile_full, check_fits, scan_profile_chunks,
};
use chperf::analysis::jank::analyze_jank;
use chperf::analysis::summary::analyze_summary;
use chperf::compact::compact_text;
use chperf::doc::Piece;
use chperf::inspect::find::find_section;
use chperf::inspect::timeline::trace_start_us;
use chperf::json::Json;
use chperf::matcher::Matcher;
use chperf::query::output::check_small;
use chperf::query::pair::{compare_csv_rows, compare_json};
use chperf::scope::Scope;
use chperf::trace::event::TraceEvent;
use chperf::trace::load::{parse_trace, take_events};
use chperf::trace::meta::{detect_main_thread, is_metadata_event};
use chperf::windowed::anchor::find_anchor;
use chperf::windowed::calltree::calltree_section;
use chperf::windowed::delta::{delta_data, DeltaRow};
use chperf::windowed::frames::{frame_stats, frames_section};
use chperf::windowed::gc::{gc_report, gc_section};

const FRAME: &str = "SubmitCompositorFrameToPresentationCompositorFrame";

const TINY: &str = r#"{"traceEvents":[
{"name":"thread_name","cat":"__metadata","ph":"M","ts":0,"pid":2,"tid":1,"args":{"name":"CrRendererMain"}},
{"name":"Profile","cat":"v8","ph":"P","ts":1000000,"pid":2,"tid":65},
{"name":"RunTask","cat":"toplevel","ph":"X","ts":1000000,"dur":600000,"pid":2,"tid":1},
{"name":"RunTask","cat":"toplevel","ph":"X","ts":1700000,"dur":20000,"pid":2,"tid":1},
{"name":"FunctionCall","cat":"devtools.timeline","ph":"X","ts":1005000,"dur":40000,"pid":2,"tid":1,"args":{"data":{"functionName":"shoot","url":"http://x/weapon.ts"}}},
{"name":"WebSocketSend","cat":"net","ph":"X","ts":1006000,"dur":10,"pid":2,"tid":1,"args":{"data":{"msg":"player_shoot"}}},
{"name":"MajorGC","cat":"v8","ph":"X","ts":1002000,"dur":5000,"pid":2,"tid":1},
{"name":"MinorGC","cat":"v8","ph":"X","ts":1010000,"dur":1000,"pid":2,"tid":1},
{"name":"SubmitCompositorFrameToPresentationCompositorFrame","ph":"b","ts":1000000,"pid":2,"tid":1},
{"name":"SubmitCompositorFrameToPresentationCompositorFrame","ph":"e","ts":1016000,"pid":2,"tid":1},
{"name":"SubmitCompositorFrameToPresentationCompositorFrame","ph":"b","ts":1017000,"pid":2,"tid":1},
{"name":"SubmitCompositorFrameToPresentationCompositorFrame","ph":"e","ts":1037000,"pid":2,"tid":1},
{"name":"DroppedFrame","ph":"I","ts":1003000,"pid":2,"tid":1},
{"name":"DroppedFrame","ph":"I","ts":1004000,"pid":2,"tid":1},
{"name":"ProfileChunk","cat":"v8","ph":"P","ts":1055000,"pid":2,"tid":65,"args":{"data":{"cpuProfile":{"nodes":[{"id":1,"callFrame":{"functionName":"(root)","url":""}},{"id":2,"callFrame":{"functionName":"shoot","url":"http://x/weapon.ts"},"parent":1},{"id":3,"callFrame":{"functionName":"update","url":"http://x/game.ts"},"parent":1}],"samples":[2,3,2,3,2,3,2]},"timeDeltas":[5000,5000,5000,5000,5000,5000,5000]}}},
{"name":"ProfileChunk","cat":"v8","ph":"P","ts":1095000,"pid":2,"tid":65,"args":{"data":{"cpuProfile":{"nodes":[{"id":1,"callFrame":{"functionName":"(root)","url":""}},{"id":4,"callFrame":{"functionName":"shoot","url":"http://x/weapon.ts"},"parent":1}],"samples":[4,4,4,4]},"timeDeltas":[4000,3000,-1000,4000]}}}
],"metadata":{"source":"DevTools"}}"#;

fn load(text: &str) -> Vec<TraceEvent> {
    let opened = match parse_trace("tiny.json", "tiny.json", text.as_bytes().to_vec(), 1) {
        Ok(o) => o,
        Err(e) => panic!("{}", e.message()),
    };
    take_events(opened.units.expect("layout")).expect("events")
}

fn text(d: &[Piece]) -> String {
    let mut s = String::new();
    for p in d {
        match p {
            Piece::Text(t) => s.push_str(t),
            Piece::Number(n) => {
                let v = if n.den == 0 {
                    0.0
                } else {
                    n.times as f64 * n.num as f64 / n.den as f64 / n.per as f64
                };
                let v = if n.neg { -v } else { v };
                let places = n.decimals as usize;
                if n.plus {
                    s.push_str(&format!("{:+.*}", places, v));
                } else {
                    s.push_str(&format!("{:.*}", places, v));
                }
            },
        }
    }
    s
}

fn everything() -> Scope {
    Scope { window: None, tid: None, pid: None, cat: None }
}

fn us(v: i64) -> i64 {
    v * 1000
}

fn matcher(p: &str) -> Matcher {
    Matcher::new(p, false).expect("pattern")
}

fn window(lo: i64, hi: i64) -> Scope {
    Scope { window: Some((us(lo), us(hi))), tid: None, pid: None, cat: None }
}

#[test]
fn main_fixture_golden_full_pipeline() {
    let events = load(TINY);
    assert!(check_fits(&events));

    assert_eq!(trace_start_us(&events), us(1_000_000));

    let cpu = analyze_cpu_profile_full(&events).0;
    assert_eq!(cpu.total_sample_time, 46_000_000);
    let shoot_total: i128 =
        cpu.functions.iter().filter(|f| f.function_name == "shoot").map(|f| f.self_time).sum();
    assert_eq!(shoot_total, 31_000_000);

    let (_, times) = scan_profile_chunks(&events, Some(&window(1_000_000, 1_030_000)));
    assert_eq!(times.total(), 30_000_000);

    let (d, _) = frames_section(&events, &everything(), FRAME, us(1_000_000));
    let md = text(&d);
    assert!(md.contains("2 paired"));
    assert!(md.contains("Dropped frames**: 2"));

    let (d, _) = gc_section(&events, &everything(), 50_000_000, us(1_000_000));
    assert!(text(&d).contains("Long tasks ≥50ms**: 1 total, 600.0ms combined"));

    let a = find_anchor(&events, &matcher("shoot")).expect("anchor");
    assert_eq!(a.kind, "FunctionCall");
    assert_eq!(a.ts, 1_005_000_000);

    let (d, _) =
        find_section(&events, &matcher("player_shoot"), &everything(), false, 30, us(1_000_000), None);
    assert!(text(&d).contains("CPU profile matches (0"));
    let (d, _) =
        find_section(&events, &matcher("weapon.ts"), &everything(), false, 30, us(1_000_000), None);
    assert!(text(&d).contains("CPU profile matches (2"));
}

#[test]
fn main_compare_rows_self_diff_is_zero() {
    let events = load(TINY);
    let da = delta_data(
        &events,
        (us(300_000), us(900_000)),
        (us(1_000_000), us(1_030_000)),
        (us(2_000_000), us(2_500_000)),
        1_010_000_000,
        FRAME,
        50_000_000,
    );
    assert!(check_small(&da.rows));
    let number = |v: &Json, key: &str| -> f64 {
        match v.get(key) {
            Some(Json::Number(t)) => t.parse().expect("number"),
            _ => panic!("{key} is no number"),
        }
    };
    let rows = compare_csv_rows(&da, &da);
    assert_eq!(rows.len(), 13);
    for r in &rows {
        let metric = r.get("metric").and_then(|m| m.as_str()).expect("metric");
        assert_eq!(number(r, "diff_shoot"), 0.0, "{metric}");
        assert_eq!(number(r, "diff_delta"), 0.0, "{metric}");
    }
    let j = compare_json(Some((&da, &da)));
    let rows = j.get("rows").and_then(|r| r.as_array()).expect("rows");
    assert_eq!(rows.len(), 13);
    assert_eq!(number(&j, "anchor_a_us"), 1_010_000.0);
    let cpu = rows
        .iter()
        .find(|r| r.get("metric").and_then(|m| m.as_str()) == Some("CPU samples"))
        .expect("row");
    assert_eq!(number(cpu, "a_shoot"), 30_000.0);
}

#[test]
fn comparisons_are_written_as_json() {
    let events = load(TINY);
    let mut a = delta_data(
        &events,
        (us(300_000), us(900_000)),
        (us(1_000_000), us(1_030_000)),
        (us(2_000_000), us(2_500_000)),
        -1_500,
        FRAME,
        50_000_000,
    );
    for r in a.rows.iter_mut() {
        (r.pre, r.shoot) = match r.metric.as_str() {
            "CPU samples" => (0, 1_250_020),
            _ => (2, 0),
        };
    }
    assert!(check_small(&a.rows));
    let j = compare_json(Some((&a, &a)));
    let text = compact_text(&j);
    assert!(text.starts_with("{\"anchor_a_us\":-2.0,\"anchor_b_us\":-2.0,\"rows\":[{\"a_delta\":"), "{text}");
    assert!(
        text.contains("{\"a_delta\":1250.02,\"a_shoot\":1250.02,\"b_delta\":1250.02,\"b_shoot\":1250.02,\"diff_delta\":0.0,\"diff_shoot\":0.0,\"metric\":\"CPU samples\",\"unit\":\"ms\"}"),
        "{text}"
    );
    assert!(text.contains("{\"a_delta\":-2.0,\"a_shoot\":0.0,"), "{text}");
    assert!(text.contains("\"a_delta\":-0.002,"), "{text}");
    assert!(
        text.ends_with("\"windows_b\":{\"post\":[2000000.0,2500000.0],\"pre\":[300000.0,900000.0],\"shoot\":[1000000.0,1030000.0]}}"),
        "{text}"
    );
    assert!(matches!(compare_json(None), Json::Null));
}

#[test]
fn main_adversarial_traces_never_panic_and_keep_invariants() {
    let mut state = 0xdead_beef_cafe_f00du64;
    let mut rng = move || {
        state = state.wrapping_mul(6364136223846793005).wrapping_add(1442695040888963407);
        state >> 33
    };
    let names = [
        "RunTask", "FunctionCall", "ProfileChunk", "thread_name", "MajorGC", "MinorGC", "DroppedFrame",
        FRAME, "Paint", "Profile", "Layout", "UpdateLayoutTree",
    ];
    let phases = ["X", "b", "e", "P", "M", "I", "B", "E", "N", ""];

    for iter in 0..60 {
        let n_ev = (rng() % 200) as usize;
        let mut arr: Vec<String> = Vec::with_capacity(n_ev + 2);
        arr.push(r#"{"name":"thread_name","cat":"__metadata","ph":"M","ts":0}"#.to_string());
        arr.push(r#"{"name":"Profile","ph":"P","ts":1000000.0,"pid":2}"#.to_string());
        for _ in 0..n_ev {
            let name = names[(rng() % names.len() as u64) as usize];
            let ph = phases[(rng() % phases.len() as u64) as usize];
            let ts: i64 = match rng() % 5 {
                0 => 0,
                1 => -1000,
                2 => 3_100_000_000,
                _ => (rng() % 2_000_000) as i64,
            };
            let dur: Option<i64> = match rng() % 4 {
                0 => None,
                1 => Some(-5),
                _ => Some((rng() % 200_000) as i64),
            };
            let mut ev = format!("{{\"name\":\"{name}\",\"ph\":\"{ph}\",\"ts\":{ts}.0");
            if let Some(d) = dur {
                ev.push_str(&format!(",\"dur\":{d}.0"));
            }
            ev.push_str(&format!(",\"tid\":{}", rng() % 8));
            ev.push_str(&format!(",\"pid\":{}", rng() % 3));
            if name == "ProfileChunk" {
                match rng() % 4 {
                    0 => {},
                    1 => ev.push_str(
                        r#","args":{"data":{"cpuProfile":{"nodes":[{"id":0,"callFrame":{"functionName":"","url":""},"parent":7}],"samples":[0,1,2]}}}"#,
                    ),
                    2 => ev.push_str(
                        r#","args":{"data":{"cpuProfile":{"nodes":[{"id":1,"callFrame":{"functionName":"a","url":""},"parent":2},{"id":2,"callFrame":{"functionName":"b","url":""},"parent":1},{"id":2,"callFrame":{"functionName":"dup","url":""},"parent":1}],"samples":[1,2,3,9,1],"timeDeltas":[100.0,"oops",-50.0]}}}"#,
                    ),
                    _ => {
                        let n_s = (rng() % 6) as usize;
                        let samples: Vec<String> = (0..n_s).map(|_| (rng() % 5).to_string()).collect();
                        let deltas: Vec<String> =
                            (0..n_s).map(|_| format!("{}.0", (rng() % 50) as i64 - 20)).collect();
                        ev.push_str(&format!(
                            ",\"args\":{{\"data\":{{\"cpuProfile\":{{\"nodes\":[{{\"id\":1,\"callFrame\":{{\"functionName\":\"x\",\"url\":\"http://x.ts\"}},\"parent\":null}}],\"samples\":[{}],\"timeDeltas\":[{}]}}}}}}",
                            samples.join(","),
                            deltas.join(",")
                        ));
                    },
                }
            } else if name == "FunctionCall" && rng() % 3 == 0 {
                ev.push_str(r#","args":{"data":{"functionName":"shoot"}}"#);
            }
            ev.push('}');
            arr.push(ev);
        }
        let events = load(&format!("{{\"traceEvents\":[{}]}}", arr.join(",")));
        assert_eq!(events.len(), n_ev + 2);
        assert!(check_fits(&events));

        let (_, full) = scan_profile_chunks(&events, None);
        let full_total = full.total();
        assert!(full_total >= 0, "iter {iter}: bad full total {full_total}");

        let mut min_ts = i64::MAX;
        let mut max_ts = 0;
        for e in &events {
            if is_metadata_event(e) {
                continue;
            }
            min_ts = min_ts.min(e.ts);
            max_ts = max_ts.max(e.ts + e.dur.unwrap_or(0));
        }
        let max_ts = max_ts.max(min_ts + 1000);
        let span = |lo: i64, hi: i64| Scope { window: Some((lo, hi)), tid: None, pid: None, cat: None };
        let (_, win_all) = scan_profile_chunks(&events, Some(&span(min_ts, max_ts)));
        assert_eq!(win_all.total(), full_total, "iter {iter}");
        let half = span(min_ts, min_ts + (max_ts - min_ts) / 2);
        let (_, win_half) = scan_profile_chunks(&events, Some(&half));
        for k in 0..win_half.len() {
            let (id, t) = win_half.entry(k);
            assert!(t <= full.get(id), "iter {iter}: windowed > full for node {id}");
        }

        let _ = analyze_cpu_profile_full(&events).0;
        let _ = analyze_summary(&events, 1);
        let _ = analyze_jank(&events, 1, None);
        let _ = analyze_jank(&events, 1, half.window);
        let main_tid = detect_main_thread(&events);
        let on_main = Scope { window: Some((min_ts, max_ts)), tid: Some(main_tid), pid: None, cat: None };
        let _ = gc_section(&events, &on_main, 50_000_000, min_ts);
        let _ = frames_section(&events, &span(min_ts, max_ts), FRAME, min_ts);
        let _ = find_anchor(&events, &matcher("shoot"));
        let _ = calltree_section(&events, &everything(), None, None, 30, min_ts, None);
    }
}

const MEDIUM: &str = r#"{"traceEvents":[
{"name":"thread_name","cat":"__metadata","ph":"M","ts":0,"pid":2,"tid":1,"args":{"name":"CrRendererMain"}},
{"name":"Profile","cat":"v8","ph":"P","ts":1000000,"pid":2,"tid":65},
{"name":"RunTask","ph":"X","ts":1000000,"dur":600000,"pid":2,"tid":1},
{"name":"RunTask","ph":"X","ts":1050000,"dur":60000,"pid":2,"tid":1},
{"name":"RunTask","ph":"X","ts":1100000,"dur":20000,"pid":2,"tid":1},
{"name":"FunctionCall","ph":"X","ts":1010000,"dur":40000,"pid":2,"tid":1,"args":{"data":{"functionName":"tick"}}},
{"name":"MajorGC","ph":"X","ts":1002000,"dur":5000,"pid":2,"tid":1},
{"name":"MinorGC","ph":"X","ts":1010000,"dur":1000,"pid":2,"tid":1},
{"name":"V8.GCScavenger","ph":"X","ts":1011000,"dur":500,"pid":2,"tid":1},
{"name":"MinorGC","ph":"X","ts":1300000,"dur":2000,"pid":2,"tid":1},
{"name":"SubmitCompositorFrameToPresentationCompositorFrame","ph":"b","ts":500000,"pid":2,"tid":1},
{"name":"SubmitCompositorFrameToPresentationCompositorFrame","ph":"e","ts":516000,"pid":2,"tid":1},
{"name":"SubmitCompositorFrameToPresentationCompositorFrame","ph":"b","ts":1000000,"pid":2,"tid":1},
{"name":"SubmitCompositorFrameToPresentationCompositorFrame","ph":"e","ts":1016000,"pid":2,"tid":1},
{"name":"SubmitCompositorFrameToPresentationCompositorFrame","ph":"b","ts":1017000,"pid":2,"tid":1},
{"name":"SubmitCompositorFrameToPresentationCompositorFrame","ph":"e","ts":1037000,"pid":2,"tid":1},
{"name":"SubmitCompositorFrameToPresentationCompositorFrame","ph":"b","ts":1040000,"pid":2,"tid":1},
{"name":"SubmitCompositorFrameToPresentationCompositorFrame","ph":"e","ts":1070000,"pid":2,"tid":1},
{"name":"SubmitCompositorFrameToPresentationCompositorFrame","ph":"b","ts":1200000,"pid":2,"tid":1},
{"name":"SubmitCompositorFrameToPresentationCompositorFrame","ph":"e","ts":1250000,"pid":2,"tid":1},
{"name":"DroppedFrame","ph":"I","ts":1003000,"pid":2,"tid":1},
{"name":"DroppedFrame","ph":"I","ts":1004000,"pid":2,"tid":1},
{"name":"ProfileChunk","ph":"P","ts":1055000,"pid":2,"tid":65,"args":{"data":{"cpuProfile":{"nodes":[{"id":1,"callFrame":{"functionName":"(root)","url":""}},{"id":2,"callFrame":{"functionName":"shoot","url":""},"parent":1},{"id":3,"callFrame":{"functionName":"update","url":""},"parent":1}],"samples":[2,3,2,3,2,3,2]},"timeDeltas":[5000,5000,5000,5000,5000,5000,5000]}}},
{"name":"ProfileChunk","ph":"P","ts":1095000,"pid":2,"tid":65,"args":{"data":{"cpuProfile":{"nodes":[{"id":4,"callFrame":{"functionName":"shoot","url":""},"parent":1}],"samples":[4,4,4,4]},"timeDeltas":[4000,3000,-1000,4000]}}}
]}"#;

fn row<'a>(rows: &'a [DeltaRow], metric: &str) -> &'a DeltaRow {
    rows.iter().find(|r| r.metric == metric).expect("metric")
}

#[test]
fn reference_medium_fixture() {
    let events = load(MEDIUM);
    assert_eq!(analyze_cpu_profile(&events).total_sample_time, 46_000_000);
    let a = find_anchor(&events, &matcher("shoot")).expect("anchor");
    assert_eq!(a.kind, "cpu-profile");
    assert_eq!(a.ts, 1_005_000_000);
    let (pre, shoot, post) = (
        (us(405_000), us(905_000)),
        (us(905_000), us(1_105_000)),
        (us(1_105_000), us(1_605_000)),
    );
    let d = delta_data(&events, pre, shoot, post, a.ts, FRAME, 50_000_000);
    assert_eq!(row(&d.rows, "CPU samples").shoot, 46_000_000);
    assert_eq!(row(&d.rows, "frames").shoot, 3);
    assert_eq!(row(&d.rows, "dropped frames").shoot, 2);
    assert_eq!(row(&d.rows, "long tasks ≥50ms").shoot, 2);
    assert_eq!(row(&d.rows, "main busy (RunTask)").shoot, 680_000_000);
    assert_eq!(row(&d.rows, "JS (FunctionCall)").shoot, 40_000_000);
    assert_eq!(row(&d.rows, "GC (Major+Minor)").shoot, 6_000_000);
    assert_eq!(row(&d.rows, "GC count").shoot, 2);
    assert_eq!(row(&d.rows, "CPU samples").pre, 0);
    assert_eq!(row(&d.rows, "CPU samples").post, 0);
    assert_eq!(row(&d.rows, "frames").post, 1);
    assert_eq!(row(&d.rows, "GC (Major+Minor)").post, 2_000_000);
    assert_eq!(row(&d.rows, "GC count").post, 1);

    let full = frame_stats(&events, &everything(), FRAME);
    assert_eq!(full.spread.count, 5);
    assert_eq!(full.spread.max, 50_000_000);
    assert_eq!(full.dropped, 2);

    let g = gc_report(&events, &window(905_000, 1_105_000), 50_000_000);
    assert_eq!((g.groups[0].count, g.groups[0].total), (1, 5_000_000));
    assert_eq!((g.groups[1].count, g.groups[1].total), (2, 1_500_000));
    assert_eq!((g.groups[2].count, g.groups[2].total), (0, 0));
    assert_eq!((g.long_tasks.len(), g.long_total), (2, 660_000_000));
}
