//! Reading traces: tokenizer, units of work, threads, file names.

use chperf::json::parse_json;
use chperf::matcher::contains_ignore_case;
use chperf::trace::chunk::{chunk_work, ChunkOutcome};
use chperf::trace::event::{Args, TraceEvent};
use chperf::trace::file::{complete, file_text, is_gz, list_traces, trace_stem};
use chperf::trace::load::{merge_units, parse_parallel, parse_trace, take_events, OpenError, Unit};
use chperf::trace::meta::detect_main_thread;
use chperf::trace::scan::{count_unescaped_quotes, scan_layout, BLOCK};
use chperf::trace::token::{parse_event_fast, parse_events_fast};

fn event_of(s: &str) -> TraceEvent {
    match parse_event_fast(s.as_bytes(), 0) {
        Ok((e, _)) => e,
        Err(_) => panic!("{s}"),
    }
}

fn parse(text: String) -> Vec<TraceEvent> {
    match parse_trace("t.json", "t.json", text.into_bytes(), 4) {
        Ok(o) => take_events(o.units.expect("layout")).expect("events"),
        Err(e) => panic!("{}", e.message()),
    }
}

#[test]
fn categories_are_read_as_they_stand() {
    let a = event_of(r#"{"name":"RunTask","cat":"devtools.timeline","ph":"X","ts":1.0}"#);
    let b = event_of(r#"{"name":"RunTask","cat":"devtools.timeline","ph":"X","ts":2.0}"#);
    let c = event_of(r#"{"name":"RunTask","cat":"v8","ph":"X","ts":3.0}"#);
    let (Some(ca), Some(cb), Some(cc)) = (a.cat, b.cat, c.cat) else {
        panic!("cats must survive");
    };
    assert_eq!(ca, "devtools.timeline");
    assert_eq!(ca, cb);
    assert_ne!(ca, cc);
    let n = event_of(r#"{"name":"RunTask","ph":"X","ts":4.0}"#);
    assert!(n.cat.is_none());
}

#[test]
fn categories_survive_the_tokenizer() {
    let evs = parse(
        r#"{"traceEvents":[{"name":"RunTask","cat":"devtools.timeline","ph":"X","ts":1.0,"pid":1,"tid":1},{"name":"RunTask","cat":"devtools.timeline","ph":"X","ts":2.0,"pid":1,"tid":1},{"name":"V8","cat":"v8","ph":"X","ts":3.0,"pid":1,"tid":1}]}"#
            .to_string(),
    );
    assert_eq!(evs.len(), 3);
    let (Some(ca), Some(cb), Some(cc)) = (&evs[0].cat, &evs[1].cat, &evs[2].cat) else {
        panic!("cats must survive the fast tokenizer path");
    };
    assert_eq!(ca, cb);
    assert_ne!(ca, cc);
}

#[test]
fn args_value_caches_parsed_result() {
    let with_args = event_of(r#"{"name":"E","ph":"X","ts":1.0,"args":{"foo":42,"bar":[1,2]}}"#);
    let first = with_args.args_value().expect("args must parse");
    assert_eq!(first.get("foo").and_then(|v| v.as_u64()), Some(42));
    let second = with_args.args_value().expect("args must parse again");
    assert_eq!(format!("{first:p}"), format!("{second:p}"), "second call must hit the cache");
    assert_eq!(with_args.args_raw(), Some(r#"{"foo":42,"bar":[1,2]}"#));

    let without_args = event_of(r#"{"name":"E","ph":"X","ts":1.0}"#);
    assert!(without_args.args_value().is_none());

    let invalid = event("E", 88, 0, None, Some("{not valid json".to_string()));
    assert!(invalid.args_value().is_none());
    assert_eq!(invalid.args_raw(), Some("{not valid json"));
}

#[test]
fn equal_cats_compare_equal_by_value() {
    let a = event_of(r#"{"name":"RunTask","cat":"DevTools.Timeline","ph":"X","ts":1.0}"#);
    let b = event_of(r#"{"name":"RunTask","cat":"DevTools.Timeline","ph":"X","ts":2.0}"#);
    assert_eq!(a.cat, b.cat);
    assert_eq!(a.cat.as_deref(), Some("DevTools.Timeline"));
    assert!(contains_ignore_case(&a.cat.expect("cat"), "devtools.timeline"));
}

fn event(name: &str, ph: u8, tid: u64, dur: Option<i64>, args: Option<String>) -> TraceEvent {
    TraceEvent {
        name: name.to_string(),
        id: 0,
        has_id: false,
        ph,
        ts: 0,
        dur: dur.map(|d| d * 1000),
        tid,
        pid: 1,
        cat: None,
        args: args.map(Args::new),
    }
}

fn thread_name(tid: u64, name: &str) -> TraceEvent {
    event("thread_name", 77, tid, None, Some(format!("{{\"name\":\"{name}\"}}")))
}

fn task(tid: u64, dur: i64) -> TraceEvent {
    event("RunTask", 88, tid, Some(dur), None)
}

#[test]
fn renderer_name_beats_io_thread_long_task() {
    let events = vec![
        thread_name(74_465, "Chrome_IOThread"),
        thread_name(74_480, "CrGpuMain"),
        thread_name(104_561, "CrRendererMain"),
        task(74_465, 600_000),
        task(104_561, 16_700),
        task(104_561, 30_000),
    ];
    assert_eq!(detect_main_thread(&events), 104_561);
}

#[test]
fn unnamed_long_task_skips_known_non_main_threads() {
    let events = vec![
        thread_name(100, "Chrome_IOThread"),
        task(100, 600_000),
        task(300, 550_000),
        task(300, 100),
    ];
    assert_eq!(detect_main_thread(&events), 300);
}

#[test]
fn renderer_outranks_browser_main_count_breaks_ties() {
    let events = vec![
        thread_name(1, "CrBrowserMain"),
        thread_name(2, "Renderer"),
        thread_name(3, "Renderer"),
        task(1, 100),
        task(3, 100),
        task(3, 100),
        task(2, 100),
    ];
    assert_eq!(detect_main_thread(&events), 3);
}

#[test]
fn named_main_without_runtasks_is_ignored() {
    let events = vec![
        thread_name(5, "CrRendererMain"),
        thread_name(6, "ThreadPoolForegroundWorker"),
        task(6, 600_000),
        task(7, 10),
    ];
    assert_eq!(detect_main_thread(&events), 7);
}

#[test]
fn nameless_trace_keeps_long_task_then_most_runtasks() {
    let events = vec![task(1, 100), task(2, 100), task(2, 100)];
    assert_eq!(detect_main_thread(&events), 2);
}

#[test]
fn escape_split_across_block_boundary_does_not_truncate() {
    let mut json = String::from(r#"{"traceEvents":[{"name":"trap","ph":"X","ts":1,"dur":1,"args":{"s":""#);
    json.push_str(&"x".repeat(65_467));
    json.push_str("\\\"");
    json.push_str("y]]]y");
    json.push_str("\",\"z\":1}}");
    for i in 0..300 {
        json.push_str(&format!(",{{\"name\":\"tail{i}\",\"ph\":\"X\",\"ts\":{},\"dur\":1}}", 10 + i));
    }
    json.push_str("]}");
    let b = json.as_bytes();
    assert_eq!(b[65_535], b'\\');
    assert_eq!(b[65_536], b'"');
    assert_eq!(b[65_537], b'y');
    let events = parse(json);
    assert_eq!(events.len(), 301);
    assert_eq!(events[0].name, "trap");
    assert_eq!(events[300].name, "tail299");
}

#[test]
fn fast_path_parses_async_ids_leniently() {
    let evs = parse(
        r#"{"traceEvents":[{"name":"AnimationFrame","ph":"s","ts":1000.0,"pid":1,"tid":1,"id":42},{"name":"AnimationFrame","ph":"f","ts":5000.0,"pid":1,"tid":1,"id":42},{"name":"AnimationFrame","ph":"s","ts":2000.0,"pid":1,"tid":1},{"name":"AnimationFrame","ph":"s","ts":3000.0,"pid":1,"tid":1,"id":"x7"},{"name":"AnimationFrame","ph":"s","ts":4000.0,"pid":1,"tid":1,"id":-3}]}"#
            .to_string(),
    );
    assert_eq!(evs.len(), 5);
    assert_eq!(evs[0].id, 42);
    assert!(evs[0].has_id);
    assert_eq!(evs[1].id, 42);
    assert!(evs[1].has_id);
    for (k, e) in evs.iter().enumerate().skip(2) {
        assert!(!e.has_id, "event {} should have no id", k);
    }
}

fn tiny_event(ts: i64) -> String {
    format!("{{\"name\":\"Tiny\",\"ph\":\"X\",\"ts\":{ts},\"pid\":1,\"tid\":1}}")
}

fn giant_event(ts: i64, blob_len: usize) -> String {
    format!(
        "{{\"name\":\"BigEvent\",\"ph\":\"X\",\"ts\":{ts},\"pid\":1,\"tid\":1,\"args\":{{\"blob\":\"{}\"}}}}",
        "A".repeat(blob_len)
    )
}

fn events_of(o: ChunkOutcome) -> Vec<TraceEvent> {
    match o {
        ChunkOutcome::Parsed(v) => v,
        ChunkOutcome::Blanked { .. } => panic!("not read"),
    }
}

#[test]
fn chunk_work_keeps_giant_event_across_block_cap() {
    let t1 = tiny_event(1);
    let g = giant_event(2, 100 * 1024);
    let t2 = tiny_event(3);
    let bytes = format!("{{\"traceEvents\":[{t1},{g},{t2}]}}").into_bytes();
    assert!(g.len() > BLOCK + 1024, "giant event must exceed BLOCK");
    let (layout, blocks) = scan_layout(&bytes).expect("layout");
    let prefix = "{\"traceEvents\":[".len() + t1.len() + 1;
    let giant_start = prefix;
    let giant_end = giant_start + g.len();
    let to = giant_start + 50;
    assert!(giant_end > to + BLOCK, "giant must close well beyond to + BLOCK");
    let mut buf = bytes.clone();
    let first = events_of(chunk_work(&mut buf, &blocks, layout.arr_open, to));
    assert_eq!(first.len(), 2, "first chunk owns tiny + giant");
    assert_eq!(first[0].name, "Tiny");
    assert_eq!(first[1].name, "BigEvent");
    let args_len = first[1].args_raw().map(|s| s.len()).unwrap_or(0);
    assert!(args_len > BLOCK, "giant args preserved, got {args_len}");
    let second = events_of(chunk_work(&mut buf, &blocks, to, layout.arr_close));
    assert_eq!(second.len(), 1, "second chunk owns only the trailing tiny");
    assert_eq!(second[0].name, "Tiny");
    assert_eq!(second[0].ts, 3_000);
    let big_total = first.iter().chain(&second).filter(|e| e.name == "BigEvent").count();
    assert_eq!(big_total, 1, "giant event exactly once across adjacent ranges");
    assert_eq!(first.len() + second.len(), 3);
}

#[test]
fn chunks_side_by_side_read_what_the_whole_reads() {
    let elements: Vec<String> =
        (0..9).map(|k| format!("{{\"name\":\"a\\u0041{k}\",\"ph\":\"X\",\"ts\":{k}}}")).collect();
    let bytes = format!("{{\"traceEvents\":[{}]}}", elements.join(" , ")).into_bytes();
    let (layout, blocks) = scan_layout(&bytes).expect("layout");
    let names = |from: usize, to: usize| -> Vec<String> {
        let mut buf = bytes.clone();
        match chunk_work(&mut buf, &blocks, from, to) {
            ChunkOutcome::Parsed(v) => v.into_iter().map(|e| e.name).collect(),
            ChunkOutcome::Blanked { start, end, .. } => {
                serde_json::Deserializer::from_slice(&buf[start..end])
                    .into_iter::<serde_json::Value>()
                    .map(|v| v.expect("element")["name"].as_str().expect("name").to_string())
                    .collect()
            },
        }
    };
    let whole = names(layout.arr_open, layout.arr_close);
    assert_eq!(whole.len(), 9);
    assert_eq!(whole[8], "aA8");
    for mid in layout.arr_open + 1..layout.arr_close {
        let mut both = names(layout.arr_open, mid);
        both.extend(names(mid, layout.arr_close));
        assert_eq!(both, whole, "cut at {mid}");
    }
}

#[test]
fn parse_parallel_thread_counts_agree_on_big_elem() {
    let mut body = String::with_capacity(300 * 1024);
    for i in 0..1000 {
        if i > 0 {
            body.push(',');
        }
        if i == 500 {
            body.push_str(&giant_event(i, 120 * 1024));
        } else {
            body.push_str(&tiny_event(i));
        }
    }
    let bytes = format!("{{\"traceEvents\":[{body}]}}").into_bytes();
    let (layout, blocks) = scan_layout(&bytes).expect("layout");
    let mut all: Vec<Vec<TraceEvent>> = Vec::new();
    for threads in [1usize, 3, 4] {
        let mut buf = bytes.clone();
        let evs = take_events(parse_parallel(&mut buf, &layout, &blocks, threads)).expect("parallel");
        assert_eq!(evs.len(), 1000, "threads={threads}");
        assert_eq!(buf, bytes);
        all.push(evs);
    }
    assert_eq!(all[0].iter().filter(|e| e.name == "BigEvent").count(), 1);
    assert_eq!(all[0].iter().filter(|e| e.name == "Tiny").count(), 999);
    for (k, evs) in all.iter().enumerate().skip(1) {
        let ts0: Vec<(i64, &str)> = all[0].iter().map(|e| (e.ts, e.name.as_str())).collect();
        let tsk: Vec<(i64, &str)> = evs.iter().map(|e| (e.ts, e.name.as_str())).collect();
        assert_eq!(tsk, ts0, "event order differs for run {k}");
    }
}

#[test]
fn what_the_tokenizer_does_not_read_is_left_as_a_stream() {
    let text = r#"{"traceEvents":[{"name":"a\u0041","ph":"X","ts":1},{"name":"b","ph":"X","ts":2}]}"#;
    let o = match parse_trace("t.json", "t.json", text.as_bytes().to_vec(), 1) {
        Ok(o) => o,
        Err(e) => panic!("{}", e.message()),
    };
    assert_eq!(o.bytes, text.as_bytes());
    let units = o.units.expect("layout");
    assert_eq!(units.len(), 1);
    match &units[0] {
        Unit::Slice(s) => assert_eq!(
            s.as_slice(),
            r#"{"name":"a\u0041","ph":"X","ts":1} {"name":"b","ph":"X","ts":2}"#.as_bytes()
        ),
        Unit::Events(_) => panic!("escapes are not read by the tokenizer"),
    }
    assert!(take_events(units).is_none());
}

#[test]
fn units_read_the_same_however_many_share_them() {
    let mut elements: Vec<String> = Vec::new();
    for k in 0..3000 {
        let name = if k % 7 == 3 { format!("n\\u0041{k}") } else { format!("n{k}") };
        elements.push(format!("{{\"name\":\"{name}\",\"ph\":\"X\",\"ts\":{k}}}"));
    }
    let text = format!("{{\"traceEvents\":[{}]}}", elements.join(" ,\n"));
    let names = |threads: usize| -> Vec<String> {
        let o = match parse_trace("t.json", "t.json", text.as_bytes().to_vec(), threads) {
            Ok(o) => o,
            Err(e) => panic!("{}", e.message()),
        };
        let mut out = Vec::new();
        for u in o.units.expect("layout") {
            match u {
                Unit::Events(v) => out.extend(v.into_iter().map(|e| e.name)),
                Unit::Slice(t) => {
                    for v in serde_json::Deserializer::from_slice(&t).into_iter::<serde_json::Value>() {
                        let v = v.expect("element");
                        out.push(v["name"].as_str().expect("name").to_string());
                    }
                },
            }
        }
        out
    };
    let one = names(1);
    assert_eq!(one.len(), 3000);
    assert_eq!((one[2].as_str(), one[3].as_str()), ("n2", "nA3"));
    for threads in [2, 3, 8] {
        assert_eq!(names(threads), one);
    }
}

#[test]
fn units_are_joined_or_the_first_failure_is_told() {
    let one = parse_events_fast(tiny_event(1).as_bytes(), 0, tiny_event(1).len()).expect("event");
    let two = parse_events_fast(tiny_event(2).as_bytes(), 0, tiny_event(2).len()).expect("event");
    let all = merge_units(vec![Ok(one), Ok(two)]).expect("events");
    assert_eq!(all.iter().map(|e| e.ts).collect::<Vec<i64>>(), [1000, 2000]);
    let r = merge_units(vec![Err("first".to_string()), Err("second".to_string())]);
    assert_eq!(r.err(), Some("chunk parse failed: first".to_string()));
}

#[test]
fn files_that_are_no_traces_are_refused() {
    match parse_trace("dir/x.json", "x.json", b"{\"other\":[]}".to_vec(), 1) {
        Err(OpenError::NotTrace(m)) => {
            assert_eq!(m, "dir/x.json: not a Chrome trace (missing top-level \"traceEvents\" array)")
        },
        _ => panic!("not a trace"),
    }
    match parse_trace("x.json.gz", "x.json.gz", b"no gzip".to_vec(), 1) {
        Err(OpenError::Unreadable(m)) => assert!(!m.is_empty()),
        _ => panic!("not gzip"),
    }
    match parse_trace("x.json", "x.json", b"[\"traceEvents\"]".to_vec(), 1) {
        Ok(o) => assert!(o.units.is_none()),
        Err(e) => panic!("{}", e.message()),
    }
}

#[test]
fn compressed_files_are_read_as_what_they_hold() {
    let text = r#"{"traceEvents":[{"name":"Tiny","ph":"X","ts":1}]}"#;
    let mut enc = flate2::write::GzEncoder::new(Vec::new(), flate2::Compression::default());
    std::io::Write::write_all(&mut enc, text.as_bytes()).expect("write");
    let packed = enc.finish().expect("finish");
    assert_ne!(packed, text.as_bytes());
    assert_eq!(file_text("t.json.gz", packed.clone()).expect("text"), text.as_bytes());
    assert_eq!(file_text("t.json", packed.clone()).expect("text"), packed);
    let o = match parse_trace("t.json.gz", "t.json.gz", packed, 1) {
        Ok(o) => o,
        Err(e) => panic!("{}", e.message()),
    };
    assert_eq!(take_events(o.units.expect("layout")).expect("events").len(), 1);
}

#[test]
fn file_names() {
    assert_eq!(trace_stem("tiny.json"), "tiny");
    assert_eq!(trace_stem("tiny.json.gz"), "tiny");
    assert_eq!(trace_stem("a.b.json"), "a.b");
    assert!(is_gz("x.json.gz"));
    assert!(!is_gz("x.json"));
    let names: Vec<String> =
        ["b.json", "a.json", "a.json.gz", "notes.txt"].iter().map(|s| s.to_string()).collect();
    let picked = list_traces(&names);
    assert_eq!(
        picked,
        [("a".to_string(), "a.json.gz".to_string()), ("b".to_string(), "b.json".to_string())]
    );
}

#[test]
fn the_page_address_comes_from_the_events() {
    let e = event(
        "TracingStartedInBrowser",
        73,
        1,
        None,
        Some(r#"{"data":{"frames":[{"url":"about:blank"},{"url":"http://x/"}]}}"#.to_string()),
    );
    let t = complete(vec![e], None);
    assert_eq!(t.metadata.expect("metadata").page_url.as_deref(), Some("http://x/"));
}

#[test]
fn quotes_behind_backslashes_are_not_counted() {
    assert_eq!(count_unescaped_quotes(b"a\"b\\\"c", 0), (1, 0));
    assert_eq!(count_unescaped_quotes(b"\"x", 1), (0, 0));
    assert_eq!(count_unescaped_quotes(b"\\\\", 1), (0, 3));
}

#[test]
fn json_values_are_read() {
    let j = parse_json(r#"{"a":[1,2.5,true,null,"s"],"b":{"c":18446744073709551615}}"#).expect("json");
    let a = j.get("a").and_then(|v| v.as_array()).expect("array");
    assert_eq!(a.len(), 5);
    assert_eq!(a[0].as_u64(), Some(1));
    assert_eq!(a[1].as_ticks(), Some(2_500));
    assert_eq!(a[4].as_str(), Some("s"));
    assert_eq!(j.get("b").and_then(|b| b.get("c")).and_then(|v| v.as_u64()), Some(u64::MAX));
    assert!(parse_json("{").is_none());
}
