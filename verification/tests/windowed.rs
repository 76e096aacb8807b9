//! Anchors, frames, collections, deltas and comma-separated rows.

use chperf::csv::{csv_field, rows_to_csv};
use chperf::doc::Piece;
use chperf::json::{parse_json, Json};
use chperf::matcher::Matcher;
use chperf::scope::Scope;
use chperf::trace::event::{Args, TraceEvent};
use chperf::windowed::anchor::find_anchor;
use chperf::windowed::calltree::calltree_section;
use chperf::windowed::delta::delta_section;
use chperf::windowed::frames::frames_section;
use chperf::windowed::gc::gc_section;

const FRAME: &str = "SubmitCompositorFrameToPresentationCompositorFrame";

fn text(d: &[Piece]) -> String {
    let mut s = String::new();
    for p in d {
        match p {
            Piece::Text(t) => s.push_str(t),
            Piece::Number(n) => {
                let v = if n.den == 0 {
                    0.0
                } else {
                    n.times as f64 * n.num as f64 / n.den as f64 / n.per as f64
                };
                let v = if n.neg { -v } else { v };
                let places = n.decimals as usize;
                if n.plus {
                    s.push_str(&format!("{:+.*}", places, v));
                } else {
                    s.push_str(&format!("{:.*}", places, v));
                }
            },
        }
    }
    s
}

fn everything() -> Scope {
    Scope { window: None, tid: None, pid: None, cat: None }
}

fn us(v: i64) -> i64 {
    v * 1000
}

fn ev(name: &str, ph: u8, ts: i64, dur: Option<i64>, args: Option<&str>) -> TraceEvent {
    TraceEvent {
        name: name.to_string(),
        id: 0,
        has_id: false,
        ph,
        ts: us(ts),
        dur: dur.map(us),
        tid: 1,
        pid: 2,
        cat: None,
        args: args.map(|a| Args::new(a.to_string())),
    }
}

fn chunk(ts: i64, nodes: &[(u64, &str, &str, Option<u64>)], samples: &[u64], deltas: &[i64]) -> TraceEvent {
    let nodes: Vec<String> = nodes
        .iter()
        .map(|(id, name, url, parent)| {
            let p = match parent {
                Some(p) => p.to_string(),
                None => "null".to_string(),
            };
            format!(
                "{{\"id\":{id},\"callFrame\":{{\"functionName\":\"{name}\",\"url\":\"{url}\"}},\"parent\":{p}}}"
            )
        })
        .collect();
    let samples: Vec<String> = samples.iter().map(|s| s.to_string()).collect();
    let deltas: Vec<String> = deltas.iter().map(|d| format!("{d}.0")).collect();
    ev(
        "ProfileChunk",
        80,
        ts,
        None,
        Some(&format!(
            "{{\"data\":{{\"cpuProfile\":{{\"nodes\":[{}],\"samples\":[{}]}},\"timeDeltas\":[{}]}}}}",
            nodes.join(","),
            samples.join(","),
            deltas.join(",")
        )),
    )
}

fn fc(ts: i64, name: &str) -> TraceEvent {
    ev("FunctionCall", 88, ts, Some(1000), Some(&format!("{{\"data\":{{\"functionName\":\"{name}\"}}}}")))
}

fn matcher(p: &str) -> Matcher {
    Matcher::new(p, false).expect("pattern")
}

#[test]
fn anchor_prefers_functioncall_then_cpu_then_args() {
    let events = vec![
        ev("Profile", 80, 1_000_000, None, None),
        ev("WebSocketSend", 88, 1_000_100, Some(10), Some(r#"{"data":{"msg":"player_shoot"}}"#)),
        chunk(
            1_002_000,
            &[(1, "(root)", "", None), (9, "shoot", "http://x/weapon.ts", Some(1))],
            &[9, 9],
            &[1000, 1000],
        ),
        fc(2_000_000, "shoot"),
    ];
    let m = matcher("shoot");
    let a = find_anchor(&events, &m).expect("anchor");
    assert_eq!(a.kind, "FunctionCall");
    assert_eq!(a.ts, 2_000_000_000);

    let a2 = find_anchor(&events, &matcher("weapon.ts")).expect("anchor");
    assert_eq!(a2.kind, "cpu-profile");
    assert_eq!(a2.ts, 1_001_000_000);

    let events2 = vec![
        ev("Profile", 80, 1_000_000, None, None),
        chunk(
            1_002_000,
            &[
                (1, "(root)", "", None),
                (7, "setup", "http://x/games/shooterX/game.ts", Some(1)),
                (8, "handleShoot", "http://x/weapon.ts", Some(1)),
            ],
            &[7, 7, 8],
            &[1000, 1000, 1000],
        ),
    ];
    let a3 = find_anchor(&events2, &m).expect("anchor");
    assert_eq!(a3.label, "handleShoot");
    assert_eq!(a3.ts, 1_003_000_000);

    let a4 = find_anchor(&events, &matcher("player_shoot")).expect("anchor");
    assert_eq!(a4.kind, "args");
    assert_eq!(a4.ts, 1_000_100_000);
}

#[test]
fn frames_section_golden() {
    let events = vec![
        ev(FRAME, 98, 1_000_000, None, None),
        ev(FRAME, 101, 1_016_000, None, None),
        ev(FRAME, 98, 1_017_000, None, None),
        ev(FRAME, 101, 1_037_000, None, None),
        ev("DroppedFrame", 73, 1_003_000, None, None),
        ev("DroppedFrame", 73, 1_004_000, None, None),
    ];
    let (d, s) = frames_section(&events, &everything(), FRAME, us(1_000_000));
    let md = text(&d);
    assert!(md.contains("2 paired"), "md: {}", md);
    assert!(md.contains("Dropped frames**: 2"), "md: {}", md);
    assert!(md.contains("| 2 | 18.00 | 20.00 | 20.00 | 20.00 | 20.00 |"), "md: {}", md);
    assert_eq!(s.spread.count, 2);
    assert_eq!(s.spread.p50, 20_000_000);
    assert_eq!(s.spread.max, 20_000_000);
    assert_eq!(s.dropped, 2);
}

#[test]
fn gc_section_golden() {
    let events = vec![
        ev("MajorGC", 88, 1_002_000, Some(5000), None),
        ev("MinorGC", 88, 1_010_000, Some(1000), None),
        ev("RunTask", 88, 1_000_000, Some(600_000), None),
        ev("RunTask", 88, 1_050_000, Some(20_000), None),
    ];
    let (d, r) = gc_section(&events, &everything(), 50_000_000, us(1_000_000));
    let md = text(&d);
    assert!(md.contains("| MajorGC | 1 | 5.00 | 5.00 |"), "md: {}", md);
    assert!(md.contains("Long tasks ≥50ms**: 1 total, 600.0ms combined"), "md: {}", md);
    assert_eq!(r.groups[0].count, 1);
    assert_eq!(r.groups[0].total, 5_000_000);
    assert_eq!(r.long_tasks.len(), 1);
    assert_eq!(r.long_total, 600_000_000);
}

fn delta_events() -> Vec<TraceEvent> {
    vec![
        ev("Profile", 80, 1_000_000, None, None),
        chunk(
            1_055_000,
            &[(1, "(root)", "", None), (2, "shoot", "", Some(1)), (3, "update", "", Some(1))],
            &[2, 3, 2, 3, 2, 3, 2],
            &[5000; 7],
        ),
    ]
}

#[test]
fn delta_section_golden() {
    let (d, data) = delta_section(
        &delta_events(),
        (us(300_000), us(900_000)),
        (us(1_000_000), us(1_030_000)),
        (us(2_000_000), us(2_500_000)),
        1_010_000_000,
        FRAME,
        50_000_000,
        us(1_000_000),
    );
    let md = text(&d);
    assert!(md.contains("Delta: PRE → SHOOT → POST"));
    let cpu = data.rows.iter().find(|m| m.metric == "CPU samples").expect("row");
    assert_eq!(cpu.pre, 0);
    assert_eq!(cpu.shoot, 30_000_000);
    assert_eq!(cpu.delta_pre(), 30_000_000);
    assert!(md.contains("| CPU samples | 0.0 | 30.0 | 0.0 | +30.0 | -30.0 |"), "md: {}", md);
    assert!(md.contains("| SHOOT | shoot (15.0ms), update (15.0ms) |"), "md: {}", md);
    assert!(md.contains("| PRE | — |"), "md: {}", md);
}

#[test]
fn a_window_compared_with_itself_shows_no_difference() {
    let w = (us(1_000_000), us(1_030_000));
    let (_, data) = delta_section(&delta_events(), w, w, w, 0, FRAME, 50_000_000, 0);
    for r in &data.rows {
        assert_eq!((r.delta_pre(), r.delta_post()), (0, 0), "{}", r.metric);
    }
}

#[test]
fn a_node_takes_no_more_than_its_parent() {
    let (d, rows, all) = calltree_section(&delta_events(), &everything(), None, None, 30, 0, None);
    assert_eq!(all, 35_000_000);
    assert_eq!(rows[0].function, "(root)");
    assert_eq!(rows[0].inclusive, 35_000_000);
    for r in &rows[1..] {
        assert!(r.inclusive <= rows[0].inclusive && r.depth == 1);
    }
    let md = text(&d);
    assert!(md.contains("(root)  self 0.00ms · incl 35.00ms (100.0%)\n  shoot  self 20.00ms"), "{md}");
}

#[test]
fn the_call_tree_shows_what_a_match_calls_and_who_calls_it() {
    let events = vec![
        ev("Profile", 80, 1_000_000, None, None),
        chunk(
            1_040_000,
            &[
                (1, "(root)", "", None),
                (2, "shoot", "http://x/weapon.ts", Some(1)),
                (3, "spread", "http://x/math.ts", Some(2)),
                (4, "update", "http://x/game.ts", Some(1)),
                (5, "(idle)", "", None),
            ],
            &[2, 3, 4, 4, 4, 5, 5, 5, 5, 5],
            &[1000, 1000, 1000, 1000, 1000, 1000, 1000, 1000, 1000, 1000],
        ),
    ];
    let names = |m: Option<&Matcher>, u: Option<&Matcher>, top: usize| -> Vec<String> {
        let (_, rows, _) = calltree_section(&events, &everything(), m, u, top, 0, None);
        rows.into_iter().map(|r| r.function).collect()
    };
    let shoot = matcher("shoot");
    assert_eq!(names(Some(&shoot), None, 30), ["(root)", "shoot", "spread"]);
    assert_eq!(names(None, Some(&matcher("math.ts")), 30), ["(root)", "shoot", "spread"]);
    assert_eq!(names(Some(&matcher("spread")), Some(&matcher("weapon")), 30), Vec::<String>::new());
    // The roots with most time come first.
    assert_eq!(names(None, None, 30), ["(root)", "update", "shoot", "spread", "(idle)"]);
    assert_eq!(names(None, None, 2), ["(root)", "update"]);
    assert!(names(None, None, 0).is_empty());
}

#[test]
fn anchors_are_found_behind_escapes() {
    let events = vec![ev("E", 88, 1_000, Some(10), Some(r#"{"msg":"sh\u006fot"}"#))];
    let a = find_anchor(&events, &matcher("shoot")).expect("anchor");
    assert_eq!(a.ts, 1_000_000);
}

#[test]
fn csv_escapes_fields() {
    let rows = match parse_json(r#"[{"a": "x,y", "b": 1}, {"a": "say \"hi\"", "b": 2}]"#) {
        Some(Json::Arr(rows)) => rows,
        _ => panic!("rows"),
    };
    let csv = rows_to_csv(&rows);
    assert_eq!(csv, "a,b\n\"x,y\",1\n\"say \"\"hi\"\"\",2\n");
}

#[test]
fn csv_edge_cases() {
    assert_eq!(csv_field("plain"), "plain");
    assert_eq!(csv_field("a\nb"), "\"a\nb\"");
    assert_eq!(rows_to_csv(&vec![]), "");
    assert_eq!(rows_to_csv(&vec![Json::Null]), "");
    let rows = match parse_json(r#"[{"a": null, "b": {"c": ["\u0001", true]}}, 7, {"b": 2.5}]"#) {
        Some(Json::Arr(rows)) => rows,
        _ => panic!("rows"),
    };
    assert_eq!(rows_to_csv(&rows), "a,b\n,\"{\"\"c\"\":[\"\"\\u0001\"\",true]}\"\n,2.5\n");
}
