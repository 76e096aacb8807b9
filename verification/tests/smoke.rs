//! Queries on a small trace, as they are asked on the command line.

use chperf::compact::compact_text;
use chperf::csv::csv_blocks;
use chperf::doc::Piece;
use chperf::inspect::chain::check_trees;
use chperf::inspect::stacks::stacks_folded;
use chperf::inspect::timeline::{check_timeline, trace_start_us};
use chperf::json::{parse_json, Json};
use chperf::query::options::{make_matcher_opt, Options};
use chperf::query::output::{check_small, find_delta, inspect_compare_doc, inspect_doc, Side};
use chperf::query::pair::{compare_csv_rows, compare_json};
use chperf::query::rows::{answer_value, check_tellable, scope_value};
use chperf::query::sections::{build_sections, Section};
use chperf::query::windows::{resolve_windows, WindowState};
use chperf::trace::event::TraceEvent;
use chperf::trace::file::trace_stem;
use chperf::trace::load::{parse_trace, take_events};
use chperf::values::{copy_json, mean_value, time_value};

const TINY: &str = r#"{"traceEvents":[
{"name":"thread_name","cat":"__metadata","ph":"M","ts":0,"pid":2,"tid":1,"args":{"name":"CrRendererMain"}},
{"name":"Profile","cat":"v8","ph":"P","ts":1000000,"pid":2,"tid":65},
{"name":"RunTask","cat":"toplevel","ph":"X","ts":1000000,"dur":600000,"pid":2,"tid":1},
{"name":"RunTask","cat":"toplevel","ph":"X","ts":1700000,"dur":20000,"pid":2,"tid":1},
{"name":"FunctionCall","cat":"devtools.timeline","ph":"X","ts":1005000,"dur":40000,"pid":2,"tid":1,"args":{"data":{"functionName":"shoot","url":"http://x/weapon.ts"}}},
{"name":"WebSocketSend","cat":"net","ph":"X","ts":1006000,"dur":10,"pid":2,"tid":1,"args":{"data":{"msg":"player_shoot"}}},
{"name":"MajorGC","cat":"v8","ph":"X","ts":1002000,"dur":5000,"pid":2,"tid":1},
{"name":"MinorGC","cat":"v8","ph":"X","ts":1010000,"dur":1000,"pid":2,"tid":1},
{"name":"SubmitCompositorFrameToPresentationCompositorFrame","ph":"b","ts":1000000,"pid":2,"tid":1},
{"name":"SubmitCompositorFrameToPresentationCompositorFrame","ph":"e","ts":1016000,"pid":2,"tid":1},
{"name":"SubmitCompositorFrameToPresentationCompositorFrame","ph":"b","ts":1017000,"pid":2,"tid":1},
{"name":"SubmitCompositorFrameToPresentationCompositorFrame","ph":"e","ts":1037000,"pid":2,"tid":1},
{"name":"DroppedFrame","ph":"I","ts":1003000,"pid":2,"tid":1},
{"name":"DroppedFrame","ph":"I","ts":1004000,"pid":2,"tid":1},
{"name":"ProfileChunk","cat":"v8","ph":"P","ts":1055000,"pid":2,"tid":65,"args":{"data":{"cpuProfile":{"nodes":[{"id":1,"callFrame":{"functionName":"(root)","url":""}},{"id":2,"callFrame":{"functionName":"shoot","url":"http://x/weapon.ts"},"parent":1},{"id":3,"callFrame":{"functionName":"update","url":"http://x/game.ts"},"parent":1}],"samples":[2,3,2,3,2,3,2]},"timeDeltas":[5000,5000,5000,5000,5000,5000,5000]}}},
{"name":"ProfileChunk","cat":"v8","ph":"P","ts":1095000,"pid":2,"tid":65,"args":{"data":{"cpuProfile":{"nodes":[{"id":1,"callFrame":{"functionName":"(root)","url":""}},{"id":4,"callFrame":{"functionName":"shoot","url":"http://x/weapon.ts"},"parent":1}],"samples":[4,4,4,4]},"timeDeltas":[4000,3000,-1000,4000]}}}
],"metadata":{"source":"DevTools"}}"#;

fn load(text: &str) -> Vec<TraceEvent> {
    let opened = match parse_trace("tiny.json", "tiny.json", text.as_bytes().to_vec(), 1) {
        Ok(o) => o,
        Err(e) => panic!("{}", e.message()),
    };
    take_events(opened.units.expect("layout")).expect("events")
}

fn text(d: &[Piece]) -> String {
    let mut s = String::new();
    for p in d {
        match p {
            Piece::Text(t) => s.push_str(t),
            Piece::Number(n) => {
                let v = if n.den == 0 {
                    0.0
                } else {
                    n.times as f64 * n.num as f64 / n.den as f64 / n.per as f64
                };
                let v = if n.neg { -v } else { v };
                let places = n.decimals as usize;
                if n.plus {
                    s.push_str(&format!("{:+.*}", places, v));
                } else {
                    s.push_str(&format!("{:.*}", places, v));
                }
            },
        }
    }
    s
}

const FIXTURE: &str = "tiny.json";

fn no_options() -> Options {
    Options {
        events: None,
        function: None,
        find: None,
        url: None,
        anchor: None,
        around: None,
        window: None,
        min_dur: None,
        bucket: None,
        top: 30,
        tid: None,
        pid: None,
        cat: None,
        sort: None,
        names: false,
        threads: false,
        stacks: false,
        flame: false,
        task: false,
        timeline: false,
        stats: false,
        worst: false,
        jank: false,
        memory: false,
        input: false,
        async_tasks: false,
        delta: false,
        calltree: false,
        gc: false,
        frames: false,
        full_args: false,
        regex: false,
        pre: 500_000_000,
        post: 500_000_000,
        lt: 50_000_000,
        frame_event: "SubmitCompositorFrameToPresentationCompositorFrame".to_string(),
    }
}

fn ms(s: &str) -> i64 {
    (s.parse::<f64>().expect("number") * 1_000_000.0) as i64
}

struct Query {
    options: Options,
    compare: bool,
}

/// The flags of a command line; an error where a second trace is given.
fn read_args(args: &[&str]) -> Result<Query, String> {
    let mut o = no_options();
    let mut compare = false;
    let mut traces = 0;
    let mut k = 0;
    while k < args.len() {
        let (flag, value) = match args[k].split_once('=') {
            Some((f, v)) => (f, v),
            None => (args[k], if k + 1 < args.len() { args[k + 1] } else { "" }),
        };
        let inline = args[k].contains('=');
        let mut takes = true;
        match flag {
            "--events" => o.events = Some(value.to_string()),
            "--function" => o.function = Some(value.to_string()),
            "--find" => o.find = Some(value.to_string()),
            "--url" => o.url = Some(value.to_string()),
            "--anchor" => o.anchor = Some(value.to_string()),
            "--around" => o.around = Some(ms(value)),
            "--window" => o.window = Some(ms(value)),
            "--lt" => o.lt = ms(value),
            "--top" => o.top = value.parse().expect("number"),
            "--tid" => o.tid = Some(value.to_string()),
            "--compare" => compare = true,
            _ => {
                takes = false;
                match flag {
                    "--names" => o.names = true,
                    "--threads" => o.threads = true,
                    "--stacks" => o.stacks = true,
                    "--flame" => o.flame = true,
                    "--task" => o.task = true,
                    "--timeline" => o.timeline = true,
                    "--stats" => o.stats = true,
                    "--worst" => o.worst = true,
                    "--jank" => o.jank = true,
                    "--delta" => o.delta = true,
                    "--calltree" => o.calltree = true,
                    "--gc" => o.gc = true,
                    "--frames" => o.frames = true,
                    "--regex" => o.regex = true,
                    _ => traces += 1,
                }
            },
        }
        k += if takes && !inline { 2 } else { 1 };
    }
    if traces > 1 {
        return Err("unexpected argument".to_string());
    }
    Ok(Query { options: o, compare })
}

fn sections_of(events: &[TraceEvent], min_ts: i64, w: &WindowState, o: &Options) -> Result<Vec<Section>, String> {
    assert!(!o.stacks || check_trees(events, &w.scope));
    assert!(!o.timeline || check_timeline(events, w.scope.window, o.bucket, min_ts));
    build_sections(events, min_ts, w, o, None).map_err(|e| e.message())
}

fn windows_of(events: &[TraceEvent], min_ts: i64, o: &Options) -> Result<WindowState, String> {
    resolve_windows(events, min_ts, o).map_err(|e| e.message())
}

fn run(args: &[&str]) -> Result<String, String> {
    let q = read_args(args)?;
    let o = &q.options;
    assert!(o.is_inspect());
    let events = load(TINY);
    let min_ts = trace_start_us(&events);
    let w = windows_of(&events, min_ts, o)?;
    if o.flame {
        assert!(check_trees(&events, &w.scope));
        let m = make_matcher_opt(&o.function, o.regex).map_err(|e| e.message())?;
        let u = make_matcher_opt(&o.url, o.regex).map_err(|e| e.message())?;
        return Ok(text(&stacks_folded(&events, m.as_ref(), u.as_ref(), &w.scope, None).0));
    }
    let sections = sections_of(&events, min_ts, &w, o)?;
    let name = trace_stem(FIXTURE);
    if q.compare {
        if let Some(x) = find_delta(&sections) {
            assert!(check_small(&x.rows));
        }
        let a = Side { name: &name, min_ts, windows: &w, sections: &sections };
        let b = Side { name: &name, min_ts, windows: &w, sections: &sections };
        return Ok(text(&inspect_compare_doc(&a, &b, o.delta)));
    }
    Ok(text(&inspect_doc(&name, &w, min_ts, &sections)))
}

fn ok(args: &[&str]) -> String {
    let s = match run(args) {
        Ok(s) => s,
        Err(e) => panic!("args {args:?} failed: {e}"),
    };
    assert!(!s.is_empty(), "args {args:?} gave nothing");
    s
}

fn contains(args: &[&str], needle: &str) {
    let s = ok(args);
    assert!(s.contains(needle), "args {args:?}: missing `{needle}` in:\n{s}");
}

fn fails(args: &[&str]) {
    assert!(run(args).is_err(), "args {args:?} should have failed");
}

#[test]
fn smoke_basic_sections() {
    contains(&[FIXTURE, "--names"], "## Event names");
    contains(&[FIXTURE, "--threads"], "## Threads");
    contains(&[FIXTURE, "--timeline", "--around", "1000"], "## Timeline");
    contains(&[FIXTURE, "--task", "--top", "2"], "## RunTask breakdown");
    contains(&[FIXTURE, "--events", "RunTask", "--stats"], "## Duration stats");
    contains(&[FIXTURE, "--worst", "--events", "RunTask"], "## Events");
}

#[test]
fn smoke_windowed() {
    contains(&[FIXTURE, "--anchor", "shoot"], "Anchored at FunctionCall `shoot`");
    contains(&[FIXTURE, "--anchor", "shoot", "--delta"], "## Delta: PRE → SHOOT → POST");
    contains(&[FIXTURE, "--delta"], "requires an anchor");
    contains(&[FIXTURE, "--anchor", "shoot", "--stacks", "--function", "shoot"], "windowed");
    contains(&[FIXTURE, "--stacks", "--around", "1000", "--window", "100"], "## Heaviest call stacks");
    contains(&[FIXTURE, "--calltree", "--url", "weapon.ts"], "incl 20.00ms");
    contains(&[FIXTURE, "--url", "weapon.ts", "--stacks"], "## Heaviest call stacks");
}

#[test]
fn an_address_restricts_every_view_of_the_samples() {
    let folded = ok(&[FIXTURE, "--flame", "--url", "weapon.ts"]);
    assert!(folded.contains("shoot") && !folded.contains("update"), "{folded}");
    let listed = ok(&[FIXTURE, "--function", "", "--url", "game.ts"]);
    assert!(listed.contains("update") && !listed.contains("shoot"), "{listed}");
    let stacks = ok(&[FIXTURE, "--stacks", "--url", "game.ts"]);
    assert!(stacks.contains("update") && !stacks.contains("shoot"), "{stacks}");
    fails(&[FIXTURE, "--regex", "--stacks", "--url", "("]);
}

#[test]
fn smoke_frames_gc_find() {
    contains(&[FIXTURE, "--frames"], "2 paired");
    contains(&[FIXTURE, "--frames"], "Dropped frames**: 2");
    contains(&[FIXTURE, "--gc"], "Long tasks ≥50ms**: 1 total, 600.0ms combined");
    contains(&[FIXTURE, "--gc", "--lt", "30"], "Long tasks ≥30ms");
    contains(&[FIXTURE, "--find", "player_shoot"], "1 matches");
    contains(&[FIXTURE, "--find", "player_shoot"], "CPU profile matches (0");
    contains(&[FIXTURE, "--anchor", "shoot", "--gc"], "windowed");
    contains(&[FIXTURE, "--anchor", "shoot", "--frames", "--window", "50"], "paired");
}

/// The sections of a query.
fn answers(args: &[&str]) -> Vec<Section> {
    let q = read_args(args).expect("flags");
    let events = load(TINY);
    let min_ts = trace_start_us(&events);
    let w = windows_of(&events, min_ts, &q.options).expect("windows");
    sections_of(&events, min_ts, &w, &q.options).expect("sections")
}

/// The answers of a query by their keys, as JSON.
fn rows_of(args: &[&str]) -> Vec<(String, Json)> {
    let o = read_args(args).expect("flags").options;
    let events = load(TINY);
    let min_ts = trace_start_us(&events);
    answers(args)
        .iter()
        .map(|s| {
            assert!(check_tellable(&events, &s.answer));
            let shares = vec!["12.5".to_string(); 100];
            (s.kind.key().to_string(), answer_value(&events, min_ts, &o, &s.answer, &shares))
        })
        .collect()
}

/// The answer of a query with one section.
fn json_of(args: &[&str]) -> serde_json::Value {
    let rows = rows_of(args);
    assert_eq!(rows.len(), 1);
    serde_json::from_str(&compact_text(&rows[0].1)).expect("valid JSON")
}

#[test]
fn smoke_json_csv() {
    let s = answers(&[FIXTURE, "--function", "shoot"]);
    assert_eq!(s[0].kind.key(), "functions");
    assert!(json_of(&[FIXTURE, "--function", "shoot"]).as_array().expect("rows").len() >= 2);

    let s = answers(&[FIXTURE, "--anchor", "shoot", "--delta"]);
    assert_eq!(s[0].kind.key(), "delta");
    assert_eq!(json_of(&[FIXTURE, "--anchor", "shoot", "--delta"])["metrics"][0]["metric"], "frames");

    let csv = csv_blocks(&rows_of(&[FIXTURE, "--frames"]), None);
    assert!(csv.contains("# frames"), "{csv}");
    let csv = csv_blocks(&rows_of(&[FIXTURE, "--anchor", "shoot", "--delta"]), None);
    assert!(csv.contains("# delta.metrics"), "delta csv missing metrics block");
    let csv = csv_blocks(&rows_of(&[FIXTURE, "--names"]), None);
    assert!(csv.contains("# names"));
}

#[test]
fn answers_are_written_as_json() {
    let text = |args: &[&str]| compact_text(&rows_of(args)[0].1);
    assert_eq!(
        text(&[FIXTURE, "--frames"]),
        r#"[{"avg_us":18000.0,"count":2,"dropped_frames":2,"frame_event":"SubmitCompositorFrameToPresentationCompositorFrame","max_us":20000.0,"p50_us":20000.0,"p90_us":20000.0,"p99_us":20000.0}]"#
    );
    assert_eq!(
        text(&[FIXTURE, "--function", "shoot", "--top", "1"]),
        r#"[{"function":"shoot","pct":12.5,"self_us":20000.0,"url":"http://x/weapon.ts"}]"#
    );
    assert_eq!(
        text(&[FIXTURE, "--stacks", "--url", "game.ts"]),
        r#"[{"depth":2,"leaf":"update","leaf_url":"game.ts","pct":12.5,"rank":1,"self_us":15000.0,"stack":["(root)","update"]}]"#
    );
    assert_eq!(
        text(&[FIXTURE, "--events", "WebSocketSend"]),
        r#"[{"args":{"data":{"msg":"player_shoot"}},"dur_us":10.0,"name":"WebSocketSend","pid":2,"t_us":6000.0,"tid":1}]"#
    );
    assert!(text(&[FIXTURE, "--find", "player"]).starts_with(r#"{"cpu_profile":[],"events":[{"args":{"#));
    assert!(text(&[FIXTURE, "--gc"]).starts_with(
        r#"[{"gc":[{"count":1,"group":"MajorGC","max_us":5000.0,"total_us":5000.0},"#
    ));
    assert!(text(&[FIXTURE, "--gc"]).ends_with(
        r#""long_tasks":{"count":1,"max_us":600000.0,"threshold_us":50000.0,"top_us":[600000.0],"total_us":600000.0}}]"#
    ));
    let task = json_of(&[FIXTURE, "--task", "--top", "1"]);
    assert_eq!(task[0]["rank"], 1);
    assert_eq!(task[0]["top_function_call"]["name"], "shoot");
    assert_eq!(task[0]["top_function_call"]["dur_us"], 40_000.0);
    let names = json_of(&[FIXTURE, "--names", "--top", "1"]);
    assert_eq!(names.as_array().expect("rows").len(), 1);
    let threads = json_of(&[FIXTURE, "--threads"]);
    assert!(threads.as_array().expect("rows").iter().any(|t| t["tid"] == 1 && t["runtask_us"] == 620_000.0));
    let stats = json_of(&[FIXTURE, "--events", "RunTask", "--stats"]);
    assert_eq!((&stats[0]["avg_us"], &stats[0]["min_us"]), (&310_000.0.into(), &20_000.0.into()));
    let tree = json_of(&[FIXTURE, "--calltree"]);
    assert_eq!(tree[0]["inclusive_us"], 46_000.0);
    let jank = json_of(&[FIXTURE, "--jank"]);
    assert_eq!(jank[0]["dropped_frames"], 2);
    let line = json_of(&[FIXTURE, "--timeline"]);
    assert_eq!((&line[0]["bucket"], &line[0]["busy"]), (&0.into(), &12.5.into()));
    let delta = json_of(&[FIXTURE, "--anchor", "shoot", "--delta"]);
    assert_eq!(delta["anchor_us"], 1_005_000.0);
    assert!(delta["top_cpu"]["shoot"].is_array() && delta["windows"]["pre"].is_array());
    assert!(matches!(rows_of(&[FIXTURE, "--delta"])[0].1, Json::Null));
    assert_eq!(compact_text(&scope_value(Some((2_499_999, -600_000)), 0)), "[2.0,-1.0]");
    assert!(matches!(scope_value(None, 0), Json::Null));
}

#[test]
fn smoke_compare_windowed() {
    let o = ok(&[FIXTURE, "--compare", FIXTURE, "--anchor", "shoot", "--delta"]);
    assert!(o.contains("## Windowed compare: SHOOT & SHOOT\u{2212}PRE"), "missing compare table:\n{o}");
    assert!(o.contains("## Trace A:"), "missing trace A sections");
    assert!(o.contains("## Trace B:"), "missing trace B sections");
    assert!(o.contains("B\u{2212}A SHOOT"), "missing B\u{2212}A columns");

    assert_eq!(trace_stem(FIXTURE), "tiny");
    let query = [FIXTURE, "--anchor", "shoot", "--delta"];
    let (a, b) = (answers(&query), answers(&query));
    let (da, db) = (find_delta(&a).expect("delta"), find_delta(&b).expect("delta"));
    assert!(check_small(&da.rows) && check_small(&db.rows));
    let v: serde_json::Value =
        serde_json::from_str(&compact_text(&compare_json(Some((da, db))))).expect("valid JSON");
    assert!(v["rows"].as_array().expect("rows").len() >= 5);
    for row in v["rows"].as_array().expect("rows") {
        assert_eq!(row["diff_shoot"], 0.0, "self-compare diff for {}", row["metric"]);
        assert_eq!(row["diff_delta"], 0.0, "self-compare delta for {}", row["metric"]);
    }

    let rows = vec![("compare".to_string(), Json::Arr(compare_csv_rows(da, db)))];
    assert!(csv_blocks(&rows, None).contains("# compare"), "missing compare csv block");
    let csv = csv_blocks(&rows_of(&query), Some("a"));
    assert!(csv.contains("# a.delta.metrics"), "missing trace-A delta csv");
    let csv = csv_blocks(&rows_of(&query), Some("b"));
    assert!(csv.contains("# b.delta.metrics"), "missing trace-B delta csv");

    contains(&[FIXTURE, "--compare", FIXTURE, "--frames"], "## Trace A:");
    contains(&[FIXTURE, "--compare", FIXTURE, "--anchor", "shoot", "--gc"], "windowed");
    contains(&[FIXTURE, "--compare", FIXTURE, "--delta"], "requires an anchor in both traces");
}

#[test]
fn smoke_regex_and_errors() {
    contains(&[FIXTURE, "--regex", "--events", "Run.*Task"], "## Events");
    fails(&[FIXTURE, "--regex", "--function", "("]);
    fails(&[FIXTURE, "/nonexistent/trace.json", "--names"]);
    fails(&[FIXTURE, "--events", "RunTask", "--tid", "notanumber"]);
    ok(&[FIXTURE, "--anchor", "zzz_no_match", "--names"]);
    ok(&[FIXTURE, "--flame"]);
    ok(&[FIXTURE, "--flame", "--function", "shoot"]);
    ok(&[FIXTURE, "--jank", "--around", "1000", "--window", "100"]);
    ok(&[FIXTURE, "--around=-500", "--names"]);
    ok(&[FIXTURE, "--events", "RunTask", "--stats", "--around", "1000", "--window", "100", "--top", "3"]);
    ok(&[FIXTURE, "--function", "shoot", "--top", "1", "--tid", "main"]);
}

#[test]
fn query_errors_read_as_expected() {
    assert_eq!(
        run(&[FIXTURE, "--names", "--tid", "notanumber"]).err(),
        Some("invalid --tid `notanumber` (use a number or \"main\")".to_string())
    );
    contains(&[FIXTURE, "--find", ""], "CPU profile matches (4");
    assert!(run(&[FIXTURE, "--regex", "--find", "("]).err().expect("error").contains("("));
}

#[test]
fn folded_stacks_are_exact() {
    assert_eq!(ok(&[FIXTURE, "--flame"]), "(root);shoot 20000\n(root);update 15000\n(root);shoot 11000\n");
    assert_eq!(ok(&[FIXTURE, "--flame", "--function", "update"]), "(root);update 15000\n");
}

#[test]
fn worst_alone_lists_tasks_around_the_longest() {
    let s = ok(&[FIXTURE, "--worst"]);
    assert!(s.contains("**Anchored at worst RunTask: t=0.00ms, dur=600.00ms (window ±300ms)**"), "{s}");
    assert!(s.contains("**Window**: -300.00ms … 300.00ms from trace start"), "{s}");
    assert!(s.contains("| 1 | 0.00 | 600.00 | RunTask | 1 | 2 |  |"), "{s}");
}

#[test]
fn sections_come_in_a_fixed_order() {
    let s = answers(&[FIXTURE, "--gc", "--names", "--function", "shoot", "--find", "shoot", "--task"]);
    let keys: Vec<&str> = s.iter().map(|x| x.kind.key()).collect();
    assert_eq!(keys, ["task", "names", "functions", "gc", "find"]);
}

#[test]
fn windows_lie_side_by_side() {
    let q = read_args(&[FIXTURE, "--anchor", "shoot", "--delta"]).expect("flags");
    let events = load(TINY);
    let w = windows_of(&events, trace_start_us(&events), &q.options).expect("windows");
    assert_eq!(w.pre, Some((405_000_000, 905_000_000)));
    assert_eq!(w.shoot, Some((905_000_000, 1_105_000_000)));
    assert_eq!(w.post, Some((1_105_000_000, 1_605_000_000)));
    assert_eq!(w.anchor_ts, Some(1_005_000_000));
    assert!(!w.missed);
    let q = read_args(&[FIXTURE, "--anchor", "zzz_no_match", "--names"]).expect("flags");
    let w = windows_of(&events, 0, &q.options).expect("windows");
    assert!(w.missed && w.shoot.is_none());
}

#[test]
fn times_are_rounded_to_microseconds() {
    let mean = |num: i128, den: i128| compact_text(&mean_value(num, den));
    assert_eq!(mean(1_500, 1), "2.0");
    assert_eq!(mean(-1_500, 1), "-2.0");
    assert_eq!(mean(2_999, 2), "1.0");
    assert_eq!(mean(3_000, 2), "2.0");
    assert_eq!(mean(5, 0), "0.0");
    assert_eq!(compact_text(&time_value(-499)), "0.0");
    let v = parse_json(r#"{"a":[1,"x",null,{"b":true}]}"#).expect("value");
    assert_eq!(compact_text(&copy_json(&v)), r#"{"a":[1,"x",null,{"b":true}]}"#);
}
