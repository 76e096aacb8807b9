//! The sampled profile and forced reflows.

use chperf::analysis::cpu::{
    analyze_cpu_profile_full, check_fits, classify_url, cpu_profile_for, scan_profile_chunks,
    scan_profile_chunks_windows, ProfileNode, SourceType,
};
use chperf::analysis::reflow::analyze_forced_reflows;
use chperf::scope::Scope;
use chperf::trace::event::{Args, TraceEvent};

fn us(v: i64) -> i64 {
    v * 1000
}

fn event(name: &str, ph: u8, ts: i64, dur: Option<i64>, tid: u64, args: Option<String>) -> TraceEvent {
    TraceEvent {
        name: name.to_string(),
        id: 0,
        has_id: false,
        ph,
        ts: us(ts),
        dur: dur.map(us),
        tid,
        pid: 2,
        cat: None,
        args: args.map(Args::new),
    }
}

fn chunk_event(ts: i64, nodes: &[(u64, &str, Option<u64>)], samples: &[u64], deltas: &[i64]) -> TraceEvent {
    let nodes: Vec<String> = nodes
        .iter()
        .map(|(id, name, parent)| {
            let p = match parent {
                Some(p) => p.to_string(),
                None => "null".to_string(),
            };
            format!("{{\"id\":{id},\"callFrame\":{{\"functionName\":\"{name}\",\"url\":\"\"}},\"parent\":{p}}}")
        })
        .collect();
    let samples: Vec<String> = samples.iter().map(|s| s.to_string()).collect();
    let deltas: Vec<String> = deltas.iter().map(|d| format!("{d}.0")).collect();
    let args = format!(
        "{{\"data\":{{\"cpuProfile\":{{\"nodes\":[{}],\"samples\":[{}]}},\"timeDeltas\":[{}]}}}}",
        nodes.join(","),
        samples.join(","),
        deltas.join(",")
    );
    event("ProfileChunk", 80, ts, None, 65, Some(args))
}

fn plain_event(ts: i64, name: &str) -> TraceEvent {
    event(name, 88, ts, Some(100), 1, None)
}

fn fixture_events() -> Vec<TraceEvent> {
    vec![
        event("Profile", 80, 1_000_000, None, 65, None),
        chunk_event(
            1_055_000,
            &[(1, "(root)", None), (2, "shoot", Some(1)), (3, "update", Some(1))],
            &[2, 3, 2, 3, 2, 3, 2],
            &[5000; 7],
        ),
        chunk_event(
            1_095_000,
            &[(1, "(root)", None), (4, "shoot", Some(1))],
            &[4, 4, 4, 4],
            &[4000, 3000, -1000, 4000],
        ),
        plain_event(1_000_000, "RunTask"),
    ]
}

fn window(lo: i64, hi: i64) -> Scope {
    Scope { window: Some((us(lo), us(hi))), tid: None, pid: None, cat: None }
}

fn weights_are_deltas() {
    let events = fixture_events();
    assert!(check_fits(&events));
    let (nodes, times) = scan_profile_chunks(&events, None);
    assert_eq!(nodes.len(), 4);
    assert_eq!(times.total(), 46_000_000);
    assert_eq!(times.get(2), 20_000_000);
    assert_eq!(times.get(3), 15_000_000);
    assert_eq!(times.get(4), 11_000_000);
}

#[test]
fn cpu_scan_attribution_weights_are_per_sample_deltas() {
    weights_are_deltas();
}

#[test]
fn analysis_scan_attribution_weights_are_per_sample_deltas() {
    weights_are_deltas();
}

fn windowed_by_sample_time() {
    let events = fixture_events();
    let (_, times) = scan_profile_chunks(&events, Some(&window(1_000_000, 1_030_000)));
    assert_eq!(times.total(), 30_000_000);
    let (_, times2) = scan_profile_chunks(&events, Some(&window(1_040_000, 1_050_000)));
    assert_eq!(times2.total(), 7_000_000);
    assert!(times.total() <= 46_000_000 && times2.total() <= 46_000_000);
}

#[test]
fn cpu_scan_windowed_attributes_by_sample_time_not_chunk_ts() {
    windowed_by_sample_time();
}

#[test]
fn analysis_scan_windowed_attributes_by_sample_time_not_chunk_ts() {
    windowed_by_sample_time();
}

fn windows_share_a_walk() {
    let events = fixture_events();
    let windows = vec![
        Some((us(1_000_000), us(1_030_000))),
        Some((us(1_040_000), us(1_050_000))),
    ];
    let (_, times) = scan_profile_chunks_windows(&events, None, &windows);
    assert_eq!(times.len(), 2);
    assert_eq!(times[0].total(), 30_000_000);
    assert_eq!(times[1].total(), 7_000_000);
    let (_, times) = scan_profile_chunks_windows(&events, None, &vec![None]);
    assert_eq!(times[0].total(), 46_000_000);
}

#[test]
fn cpu_scan_multi_window_shares_one_walk() {
    windows_share_a_walk();
}

#[test]
fn analysis_scan_multi_window_shares_one_walk() {
    windows_share_a_walk();
}

fn same_node(a: &ProfileNode, b: &ProfileNode) -> bool {
    a.id == b.id && a.name == b.name && a.url == b.url && a.parent == b.parent
}

/// The scan of a long trace is the sum of the scans of its halves: the chunks
/// after the cut keep their place in time by their own process.
fn scan_adds_up() {
    let mut state = 0x1234_5678_9abc_def0u64;
    let mut rng = move || {
        state = state.wrapping_mul(6364136223846793005).wrapping_add(1442695040888963407);
        state >> 33
    };
    let mut events: Vec<TraceEvent> = Vec::new();
    for i in 0..22_000i64 {
        let samples: Vec<u64> = (0..8).map(|_| (rng() % 4) + 1).collect();
        let deltas: Vec<i64> = (0..8).map(|_| (rng() % 11) as i64 - 1).collect();
        events.push(chunk_event(
            1_000_000 + i * 10_000,
            &[(1, "(root)", None), (2, "a", Some(1)), (3, "b", Some(1)), (4, "c", Some(1))],
            &samples,
            &deltas,
        ));
        events.push(plain_event(1_000_000 + i * 10_000, "RunTask"));
        events.push(plain_event(1_000_001 + i * 10_000, "Paint"));
    }
    assert!(events.len() >= 64_000);
    let (nodes, times) = scan_profile_chunks(&events, None);
    assert_eq!(nodes.len(), 4);
    let mid = events.len() / 2;
    let (first, a) = scan_profile_chunks(&events[..mid], None);
    let (second, b) = scan_profile_chunks(&events[mid..], None);
    for k in 0..nodes.len() {
        assert!(same_node(nodes.at(k), first.at(k)));
        assert!(same_node(nodes.at(k), second.at(k)));
    }
    assert_eq!(times.len(), a.len());
    for k in 0..times.len() {
        let (id, t) = times.entry(k);
        assert_eq!(t, a.get(id) + b.get(id), "node {id} self-time diverged");
    }
}

#[test]
fn cpu_scan_parallel_matches_serial_exactly() {
    scan_adds_up();
}

#[test]
fn analysis_scan_parallel_matches_serial_exactly() {
    scan_adds_up();
}

#[test]
fn cpu_profile_cache_matches_fresh_scan_on_full_scope() {
    let events = fixture_events();
    let empty = Scope { window: None, tid: None, pid: None, cat: None };
    let (result, cache) = analyze_cpu_profile_full(&events);
    assert!(cache.serves(&empty));
    assert!(!cache.serves(&Scope { window: Some((0, 1000)), tid: None, pid: None, cat: None }));

    let kept = cpu_profile_for(&events, &empty, Some(&cache));
    let new = cpu_profile_for(&events, &empty, None);
    let (cached, fresh) = (kept.get(), new.get());
    assert_eq!(cached.nodes.len(), fresh.nodes.len());
    for k in 0..cached.nodes.len() {
        let n = cached.nodes.at(k);
        assert!(same_node(fresh.nodes.get(n.id).expect("node"), n));
    }
    assert_eq!(cached.self_times.len(), fresh.self_times.len());
    for k in 0..cached.self_times.len() {
        let (id, t) = cached.self_times.entry(k);
        assert_eq!(fresh.self_times.get(id), t);
    }
    assert!(result.total_sample_time > 0);
    assert_eq!(result.total_sample_time, result.app_time + result.runtime_time + result.native_time);
}

#[test]
fn sources_are_told_by_address() {
    assert!(classify_url("").label() == SourceType::Native.label());
    assert_eq!(classify_url("http://x/src/Game.ts").label(), SourceType::AppCode.label());
    assert_eq!(classify_url("http://x/Node_Modules/react.js").label(), SourceType::Runtime.label());
}

fn ev_x(ts: i64, dur: i64, name: &str) -> TraceEvent {
    event(name, 88, ts, Some(dur), 1, None)
}

#[test]
fn detects_loop_reflow_inside_single_function_call() {
    let events = vec![
        ev_x(100, 500, "RunTask"),
        ev_x(110, 400, "FunctionCall"),
        ev_x(120, 10, "UpdateLayoutTree"),
        ev_x(150, 15, "UpdateLayoutTree"),
        ev_x(200, 20, "Layout"),
        ev_x(250, 12, "UpdateLayoutTree"),
    ];
    let res = analyze_forced_reflows(&events, 1);
    assert_eq!(res.total_reflows, 4);
    assert_eq!(res.entries.len(), 1);
    assert_eq!(res.entries[0].reflow_count, 4);
    assert_eq!(res.entries[0].layout_time, 57_000);
}

#[test]
fn scheduled_pipeline_after_js_is_not_forced_reflow() {
    let events = vec![
        ev_x(100, 300, "RunTask"),
        ev_x(110, 90, "FunctionCall"),
        ev_x(210, 20, "UpdateLayoutTree"),
        ev_x(230, 30, "Layout"),
    ];
    let res = analyze_forced_reflows(&events, 1);
    assert_eq!(res.total_reflows, 0);
    assert!(res.entries.is_empty());
}
