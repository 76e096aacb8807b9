//! Lists, distributions and searches on a small trace.

use chperf::doc::Piece;
use chperf::inspect::chain::{check_trees, node_chain_names};
use chperf::inspect::events::{events_section, Sort};
use chperf::inspect::find::{find_section, snippet_around};
use chperf::inspect::names::{names_section, stats_section};
use chperf::inspect::stacks::{collect_cpu_profile, functions_section, stacks_section};
use chperf::inspect::task::{task_section, worst_runtask};
use chperf::inspect::threads::threads_section;
use chperf::inspect::timeline::{check_timeline, plan_timeline, timeline_section, trace_end_us};
use chperf::matcher::{contains_ignore_case, Matcher, NameFilter};
use chperf::render::{short_url, truncate};
use chperf::scope::{full_scope, window_us, Scope};
use chperf::trace::event::TraceEvent;
use chperf::trace::load::{parse_trace, take_events};

const FRAME: &str = "SubmitCompositorFrameToPresentationCompositorFrame";

const TINY: &str = r#"{"traceEvents":[
{"name":"thread_name","cat":"__metadata","ph":"M","ts":0,"pid":2,"tid":1,"args":{"name":"CrRendererMain"}},
{"name":"Profile","cat":"v8","ph":"P","ts":1000000,"pid":2,"tid":65},
{"name":"RunTask","cat":"toplevel","ph":"X","ts":1000000,"dur":600000,"pid":2,"tid":1},
{"name":"RunTask","cat":"toplevel","ph":"X","ts":1700000,"dur":20000,"pid":2,"tid":1},
{"name":"FunctionCall","cat":"devtools.timeline","ph":"X","ts":1005000,"dur":40000,"pid":2,"tid":1,"args":{"data":{"functionName":"shoot","url":"http://x/weapon.ts"}}},
{"name":"WebSocketSend","cat":"net","ph":"X","ts":1006000,"dur":10,"pid":2,"tid":1,"args":{"data":{"msg":"player_shoot"}}},
{"name":"MajorGC","cat":"v8","ph":"X","ts":1002000,"dur":5000,"pid":2,"tid":1},
{"name":"MinorGC","cat":"v8","ph":"X","ts":1010000,"dur":1000,"pid":2,"tid":1},
{"name":"SubmitCompositorFrameToPresentationCompositorFrame","ph":"b","ts":1000000,"pid":2,"tid":1},
{"name":"SubmitCompositorFrameToPresentationCompositorFrame","ph":"e","ts":1016000,"pid":2,"tid":1},
{"name":"SubmitCompositorFrameToPresentationCompositorFrame","ph":"b","ts":1017000,"pid":2,"tid":1},
{"name":"SubmitCompositorFrameToPresentationCompositorFrame","ph":"e","ts":1037000,"pid":2,"tid":1},
{"name":"DroppedFrame","ph":"I","ts":1003000,"pid":2,"tid":1},
{"name":"DroppedFrame","ph":"I","ts":1004000,"pid":2,"tid":1},
{"name":"ProfileChunk","cat":"v8","ph":"P","ts":1055000,"pid":2,"tid":65,"args":{"data":{"cpuProfile":{"nodes":[{"id":1,"callFrame":{"functionName":"(root)","url":""}},{"id":2,"callFrame":{"functionName":"shoot","url":"http://x/weapon.ts"},"parent":1},{"id":3,"callFrame":{"functionName":"update","url":"http://x/game.ts"},"parent":1}],"samples":[2,3,2,3,2,3,2]},"timeDeltas":[5000,5000,5000,5000,5000,5000,5000]}}},
{"name":"ProfileChunk","cat":"v8","ph":"P","ts":1095000,"pid":2,"tid":65,"args":{"data":{"cpuProfile":{"nodes":[{"id":1,"callFrame":{"functionName":"(root)","url":""}},{"id":4,"callFrame":{"functionName":"shoot","url":"http://x/weapon.ts"},"parent":1}],"samples":[4,4,4,4]},"timeDeltas":[4000,3000,-1000,4000]}}}
],"metadata":{"source":"DevTools"}}"#;

fn load(text: &str) -> Vec<TraceEvent> {
    let opened = match parse_trace("tiny.json", "tiny.json", text.as_bytes().to_vec(), 1) {
        Ok(o) => o,
        Err(e) => panic!("{}", e.message()),
    };
    take_events(opened.units.expect("layout")).expect("events")
}

fn text(d: &[Piece]) -> String {
    let mut s = String::new();
    for p in d {
        match p {
            Piece::Text(t) => s.push_str(t),
            Piece::Number(n) => {
                let v = if n.den == 0 {
                    0.0
                } else {
                    n.times as f64 * n.num as f64 / n.den as f64 / n.per as f64
                };
                let v = if n.neg { -v } else { v };
                let places = n.decimals as usize;
                if n.plus {
                    s.push_str(&format!("{:+.*}", places, v));
                } else {
                    s.push_str(&format!("{:.*}", places, v));
                }
            },
        }
    }
    s
}

fn everything() -> Scope {
    Scope { window: None, tid: None, pid: None, cat: None }
}

fn us(v: i64) -> i64 {
    v * 1000
}

const START: i64 = 1_000_000_000;

fn filter(names: &[&str], regex: bool) -> NameFilter {
    let names: Vec<String> = names.iter().map(|s| s.to_string()).collect();
    NameFilter::new(&names, regex).expect("names")
}

fn matcher(p: &str, regex: bool) -> Matcher {
    Matcher::new(p, regex).expect("pattern")
}

#[test]
fn events_are_listed_and_sorted() {
    let events = load(TINY);
    let (d, q) = events_section(
        &events,
        &filter(&["RunTask", "MajorGC"], false),
        "RunTask,MajorGC",
        &everything(),
        0,
        Sort::Ts,
        false,
        2,
        START,
    );
    let names: Vec<(&str, i64)> = q.iter().map(|i| (events[*i].name.as_str(), events[*i].ts)).collect();
    assert_eq!(
        names,
        [("RunTask", us(1_000_000)), ("MajorGC", us(1_002_000)), ("RunTask", us(1_700_000))]
    );
    let md = text(&d);
    assert!(md.starts_with("## Events: RunTask,MajorGC (3 matches, full trace)\n\n| # |"), "{md}");
    assert!(md.contains("| 2 | 2.00 | 5.00 | MajorGC | 1 | 2 |  |\n"), "{md}");
    assert!(md.ends_with("\n_Showing 2 of 3 matches (use --top to see more)._\n\n"), "{md}");

    let by = |sort: Sort, min_dur: i64| {
        let (_, q) = events_section(
            &events,
            &filter(&["^M.*GC$", "RunTask"], true),
            "x",
            &everything(),
            min_dur,
            sort,
            false,
            30,
            START,
        );
        q.iter().map(|i| events[*i].dur.unwrap_or(0)).collect::<Vec<i64>>()
    };
    assert_eq!(by(Sort::Dur, 0), [us(600_000), us(20_000), us(5_000), us(1_000)]);
    assert_eq!(by(Sort::Name, 0), [us(5_000), us(1_000), us(600_000), us(20_000)]);
    assert_eq!(by(Sort::Count, us(5_000)), [us(600_000), us(20_000), us(5_000)]);
}

#[test]
fn no_events_are_told_so() {
    let events = load(TINY);
    let (d, q) = events_section(
        &events,
        &filter(&["Nothing"], false),
        "Nothing",
        &Scope { window: Some((START, START)), tid: None, pid: None, cat: None },
        0,
        Sort::Ts,
        false,
        30,
        START,
    );
    assert!(q.is_empty());
    assert_eq!(
        text(&d),
        "## Events: Nothing (0 matches, windowed)\n\n- **Window**: 0.00ms … 0.00ms from trace start\n\nNo matching events.\n\n"
    );
}

#[test]
fn arguments_are_shown_as_compact_json() {
    let events = load(TINY);
    let (d, _) = events_section(
        &events,
        &filter(&["WebSocketSend"], false),
        "w",
        &everything(),
        0,
        Sort::Ts,
        false,
        30,
        START,
    );
    let md = text(&d);
    assert!(md.contains(r#"| 1 | 6.00 | 0.01 | WebSocketSend | 1 | 2 | {"data":{"msg":"player_shoot"}} |"#), "{md}");
}

#[test]
fn durations_are_distributed_by_name() {
    let events = load(TINY);
    let (d, rows) =
        stats_section(&events, &filter(&["RunTask", "MinorGC"], false), "x", &everything(), 0, START);
    assert_eq!(rows.len(), 2);
    assert_eq!((rows[0].name.as_str(), rows[0].count, rows[0].total), ("RunTask", 2, 620_000_000));
    assert_eq!((rows[0].min, rows[0].max), (20_000_000, 600_000_000));
    assert_eq!((rows[0].p50, rows[0].p90), (600_000_000, 600_000_000));
    for r in &rows {
        assert!(r.min <= r.p50 && r.p50 <= r.p90 && r.p90 <= r.p99 && r.p99 <= r.max);
    }
    assert!(
        text(&d).contains("| RunTask | 2 | 620.00 | 20.00 | 310.00 | 600.00 | 600.00 | 600.00 | 600.00 |"),
        "{}",
        text(&d)
    );
}

#[test]
fn names_are_counted() {
    let events = load(TINY);
    let (_, rows) = names_section(&events, &everything(), Sort::Name, 30, START);
    assert_eq!(rows.iter().map(|r| r.count).sum::<usize>(), events.len());
    let (d, rows) = names_section(&events, &everything(), Sort::Count, 30, START);
    assert_eq!((rows[0].name.as_str(), rows[0].count), (FRAME, 4));
    assert!(text(&d).contains("| 2 | RunTask | 2 | 620.00 | 310.00 |"), "{}", text(&d));
    let (_, rows) = names_section(&events, &everything(), Sort::Name, 30, START);
    assert_eq!(rows[0].name, "DroppedFrame");
    let (_, rows) = names_section(&events, &everything(), Sort::Dur, 30, START);
    assert_eq!(rows[0].name, "RunTask");
    assert_eq!(rows[1].name, "FunctionCall");
    let v8 = Scope { window: None, tid: None, pid: None, cat: Some("v8".to_string()) };
    let (_, rows) = names_section(&events, &v8, Sort::Name, 30, START);
    let names: Vec<&str> = rows.iter().map(|r| r.name.as_str()).collect();
    assert_eq!(names, ["MajorGC", "MinorGC", "Profile", "ProfileChunk"]);
}

#[test]
fn threads_are_told_by_their_tasks() {
    let events = load(TINY);
    let (d, rows) = threads_section(&events, &everything(), 30, START);
    assert_eq!(rows.len(), 2);
    assert_eq!((rows[0].tid, rows[0].events, rows[0].run), (1, 13, 620_000_000));
    assert_eq!(rows[0].top_event, FRAME);
    assert_eq!((rows[1].tid, rows[1].events, rows[1].top_event.as_str()), (65, 3, "ProfileChunk"));
    assert!(text(&d).contains("## Threads (2 distinct, full trace)"));
}

#[test]
fn the_timeline_is_cut_into_buckets() {
    let events = load(TINY);
    assert_eq!(trace_end_us(&events), 1_720_000_000);
    let plan = plan_timeline(&events, None, None, START).expect("plan");
    assert_eq!((plan.bucket, plan.count), (18_000_000, 40));
    assert!(check_timeline(&events, None, Some(100_000_000), START));
    let (d, t) = timeline_section(&events, &everything(), Some(100_000_000), START);
    assert_eq!(t.rows.len(), 8);
    assert_eq!((t.rows[0].run, t.rows[0].events), (600_000_000, 14));
    assert_eq!((t.rows[7].run, t.rows[7].events), (20_000_000, 1));
    let md = text(&d);
    assert!(md.contains("## Timeline (8 buckets × 100ms, full trace)"), "{md}");
    assert!(md.contains(&format!("| 1 | 0 | 600.00 | {} 100% | 14 |", "█".repeat(24))), "{md}");
    assert!(
        md.contains(&format!("| 8 | 700 | 20.00 | {}{} 20% | 1 |", "█".repeat(5), "░".repeat(19))),
        "{md}"
    );
    let nothing = Scope { window: Some((5, 5)), tid: None, pid: None, cat: None };
    let (d, t) = timeline_section(&events, &nothing, None, START);
    assert!(t.rows.is_empty());
    assert_eq!(text(&d), "_Empty trace range._\n\n");
}

#[test]
fn tasks_are_broken_down() {
    let events = load(TINY);
    assert_eq!(worst_runtask(&events, &everything()), Some((us(1_000_000), us(600_000))));
    let other = Scope { window: None, tid: Some(65), pid: None, cat: None };
    assert_eq!(worst_runtask(&events, &other), None);
    let (d, rows) = task_section(&events, &everything(), 1, START);
    assert_eq!(rows.len(), 1);
    assert_eq!(rows[0].children[0].name, "FunctionCall");
    assert_eq!(rows[0].top_call, Some(("shoot".to_string(), us(40_000))));
    let md = text(&d);
    assert!(md.contains("## RunTask breakdown (2 tasks, full trace)"), "{md}");
    assert!(md.contains("### #1  t=0.00ms  dur=600.00ms  tid=1"), "{md}");
    assert!(md.contains("| FunctionCall | 1 | 40.00 | 6.7% |"), "{md}");
    assert!(md.contains("- **top FunctionCall**: `shoot` (40.00)"), "{md}");
    let (d, _) = task_section(&events, &everything(), 2, START);
    assert!(text(&d).contains("_No child events._"));
}

#[test]
fn functions_and_stacks_are_found() {
    let events = load(TINY);
    assert!(check_trees(&events, &everything()));
    let m = matcher("SHOOT", false);
    let (d, l) = functions_section(&events, &m, None, &everything(), 30, START, None);
    assert_eq!(l.rows.len(), 2);
    assert_eq!((l.matched, l.all), (31_000_000, 46_000_000));
    let md = text(&d);
    assert!(md.contains("## CPU Functions matching `shoot` (2 functions, full trace)"), "{md}");
    assert!(md.contains("| 1 | shoot | 20.00ms | 43.5% | weapon.ts |"), "{md}");
    let (d, l) = stacks_section(&events, Some(&matcher("^up", true)), None, &everything(), 30, START, None);
    assert_eq!(l.rows[0].stack, ["(root)", "update"]);
    let md = text(&d);
    assert!(md.contains("## Heaviest call stacks (1 leaves, leaf ~ /^up/, full trace)"), "{md}");
    assert!(md.contains("### #1  15.00ms (100.0% of matched)  depth 2"), "{md}");
    assert!(md.contains("- **stack**: (root) → update"), "{md}");
    let c = collect_cpu_profile(&events, &everything());
    assert_eq!(c.leaf_time.total(), 46_000_000);
    assert_eq!(node_chain_names(&c.nodes, 4), ["(root)", "shoot"]);
    assert_eq!(node_chain_names(&c.nodes, 99), ["(unknown)"]);
}

#[test]
fn addresses_restrict_functions_and_stacks() {
    let events = load(TINY);
    let weapon = matcher("WEAPON", false);
    let any = matcher("", false);
    let (d, l) = functions_section(&events, &any, Some(&weapon), &everything(), 30, START, None);
    assert_eq!(l.rows.len(), 2);
    assert!(l.rows.iter().all(|r| r.function == "shoot"));
    assert!(text(&d).contains("matching `` + url~`weapon` (2 functions, full trace)"), "{}", text(&d));
    let (_, l) = functions_section(&events, &any, None, &everything(), 30, START, None);
    assert_eq!(l.rows.len(), 3);
    let (d, l) = stacks_section(&events, None, Some(&weapon), &everything(), 30, START, None);
    assert_eq!(l.rows.len(), 2);
    assert!(l.rows.iter().all(|r| r.leaf == "shoot"));
    assert!(text(&d).contains("leaf url~`weapon`"), "{}", text(&d));
    let up = matcher("update", false);
    let (_, l) = stacks_section(&events, Some(&up), Some(&weapon), &everything(), 30, START, None);
    assert!(l.rows.is_empty());
}

#[test]
fn full_arguments_are_not_shortened() {
    let long = "x".repeat(3000);
    let t = format!(
        "{{\"traceEvents\":[{{\"name\":\"E\",\"ph\":\"X\",\"ts\":1,\"args\":{{\"k\":\"{long}\"}}}}]}}"
    );
    let events = load(&t);
    let whole = format!("{{\"k\":\"{long}\"}}");
    let list = |full: bool| {
        let f = filter(&["E"], false);
        text(&events_section(&events, &f, "E", &everything(), 0, Sort::Ts, full, 30, 0).0)
    };
    assert!(list(true).contains(&whole));
    assert!(!list(false).contains(&whole));
    let m = matcher("xxx", false);
    let (_, f) = find_section(&events, &m, &everything(), true, 30, 0, None);
    assert_eq!(f.events[0].snippet, whole);
    let (_, f) = find_section(&events, &m, &everything(), false, 30, 0, None);
    assert!(f.events[0].snippet.len() < 500);
}

#[test]
fn an_empty_pattern_matches_everything() {
    assert!(contains_ignore_case("abc", ""));
    let (_, f) =
        find_section(&load(TINY), &matcher("", false), &everything(), false, 30, START, None);
    assert_eq!(f.nodes.len(), 4);
}

#[test]
fn snippets_keep_to_characters() {
    let t = format!(
        "{{\"traceEvents\":[{{\"name\":\"E\",\"ph\":\"X\",\"ts\":1,\"args\":{{\"k\":\"{}needle{}\"}}}}]}}",
        "é".repeat(100),
        "→".repeat(100)
    );
    let (_, f) =
        find_section(&load(&t), &matcher("NEEDLE", false), &everything(), false, 30, 0, None);
    assert_eq!(f.events[0].snippet, format!("{}needle{}", "é".repeat(60), "→".repeat(60)));
}

#[test]
fn parents_in_a_circle_are_recognized() {
    let looped = r#"{"traceEvents":[{"name":"ProfileChunk","ph":"P","ts":1,"args":{"data":{"cpuProfile":{"nodes":[{"id":1,"callFrame":{"functionName":"a"},"parent":2},{"id":2,"callFrame":{"functionName":"b"},"parent":1}]}}}}]}"#;
    // Nobody sampled the circle.
    assert!(check_trees(&load(looped), &everything()));
    let sampled = looped.replacen("}]}", "}],\"samples\":[3]},\"timeDeltas\":[1000]", 1);
    assert!(check_trees(&load(&sampled), &everything()));
    let sampled = sampled.replace("[3]", "[3,1]").replace("[1000]", "[1000,1000]");
    assert!(!check_trees(&load(&sampled), &everything()));
    let elsewhere = Scope { window: Some((us(5_000), us(6_000))), tid: None, pid: None, cat: None };
    assert!(check_trees(&load(&sampled), &elsewhere));
}

#[test]
fn finds_show_what_stands_around_the_match() {
    let events = load(TINY);
    let (d, f) = find_section(&events, &matcher("player", false), &everything(), false, 30, START, None);
    assert_eq!(f.events.len(), 1);
    assert_eq!(f.events[0].snippet, r#"{"data":{"msg":"player_shoot"}}"#);
    assert!(text(&d).contains("## Find `player` in event args (1 matches)"));
    let (_, f) = find_section(&events, &matcher("game\\.ts|no", true), &everything(), true, 30, START, None);
    assert_eq!(f.nodes.len(), 1);
    assert_eq!((f.nodes[0].function.as_str(), f.nodes[0].time), ("update", 15_000_000));
    let far = format!(
        "{{\"traceEvents\":[{{\"name\":\"E\",\"ph\":\"X\",\"ts\":1,\"args\":{{\"k\":\"{}12x{}\"}}}}]}}",
        "a".repeat(100),
        "b".repeat(100)
    );
    let (_, f) =
        find_section(&load(&far), &matcher("[0-9]+x", true), &everything(), false, 30, 0, None);
    assert_eq!(f.events[0].snippet, format!("{}12x{}", "a".repeat(60), "b".repeat(60)));
    let long = format!("{}needle{}", "a".repeat(100), "b".repeat(100));
    assert_eq!(
        snippet_around(&long, 100, 6),
        format!("{}needle{}", "a".repeat(60), "b".repeat(60))
    );
    assert_eq!(snippet_around("short", 0, 5), "short");
}

#[test]
fn bars_in_snippets_are_escaped() {
    let t = r#"{"traceEvents":[{"name":"E","ph":"X","ts":1,"args":{"k":"a|b"}}]}"#;
    let (d, _) = find_section(&load(t), &matcher("a|b", false), &everything(), false, 30, 0, None);
    assert!(text(&d).contains(r#"…{"k":"a\|b"}…"#), "{}", text(&d));
}

#[test]
fn matchers_match_without_regard_to_case() {
    assert!(contains_ignore_case("DevTools", "devtools"));
    assert!(!contains_ignore_case("Dev", "devtools"));
    assert!(contains_ignore_case("GRÖSSE", "grösse"));
    assert!(matcher("Größe", false).matches("die GRÖßE"));
    assert_eq!(matcher("AbC", false).label(), "`abc`");
    assert_eq!(matcher("A+", true).label(), "/A+/");
    assert!(matcher("^a+$", true).matches("aaa"));
    assert!(!matcher("^a+$", true).matches("AAA"));
    assert!(Matcher::new("(", true).is_err());
    assert!(matcher("", false).matches(""));
    assert!(contains_ignore_case("x", ""));
    let names = vec!["(".to_string()];
    assert!(NameFilter::new(&names, true).is_err());
    assert!(filter(&["("], false).matches("("));
}

#[test]
fn windows_and_texts() {
    assert_eq!(window_us(None, Some(5), 7), None);
    assert_eq!(window_us(Some(1_000), None, 7), Some((1_007 - 100_000_000, 1_007 + 100_000_000)));
    assert_eq!(window_us(Some(i64::MAX), Some(5), i64::MAX), Some((i64::MAX, i64::MAX)));
    let s = full_scope();
    assert!(s.window.is_none() && s.tid.is_none() && s.pid.is_none() && s.cat.is_none());
    assert_eq!(truncate("äbc", 3), "äbc");
    assert_eq!(truncate("äbcd", 3), "äbc…");
    assert_eq!(short_url("http://x/a/b.ts"), "b.ts");
    assert_eq!(short_url("b.ts"), "b.ts");
}
