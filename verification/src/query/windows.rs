//! The anchor of a query and the windows before, at and after it.

use vstd::prelude::*;
use crate::analysis::common::dur_of;
use crate::analysis::cpu::profile_fits;
use crate::doc::{doc_view, make_ms, make_ratio, put, put_num, ratio_num, Doc, PieceView};
use crate::inspect::task::{is_timed_task, is_worst, worst_runtask};
use crate::query::options::{
    make_matcher,
    matcher_for,
    parse_tid,
    pattern_ok,
    tid_number,
    Options,
    QueryError,
};
use crate::matcher::Matcher;
use crate::render::{ms, txt};
use crate::scope::{allows_source, clamp_ts, nearest_ts, window_around, Scope, HALF_WINDOW};
use crate::text::{lowercased, same};
use crate::trace::event::{opt_chars, TraceEvent};
use crate::trace::meta::{detect_main_thread, is_main_thread};
use crate::windowed::anchor::{anchor_of, find_anchor, Anchor};

verus! {

/// The thread asked for is `main` or a number.
pub open spec fn tid_ok(tid: Option<Seq<char>>) -> bool {
    tid matches Some(s) ==> s == "main"@ || tid_number(s) is Some
}

/// The thread asked for: a number, or the main thread of the trace.
pub open spec fn tid_of(events: Seq<TraceEvent>, tid: Option<Seq<char>>, r: Option<u64>) -> bool {
    match tid {
        Some(s) => match r {
            Some(t) => if s == "main"@ {
                is_main_thread(events, t)
            } else {
                tid_number(s) == Some(t)
            },
            None => false,
        },
        None => r is None,
    }
}

fn find_tid(events: &[TraceEvent], tid: &Option<String>) -> (r: Result<Option<u64>, QueryError>)
    ensures
        match r {
            Ok(t) => tid_ok(opt_chars(*tid)) && tid_of(events@, opt_chars(*tid), t),
            Err(QueryError::BadTid(s)) => !tid_ok(opt_chars(*tid)) && opt_chars(*tid) == Some(s@),
            Err(_) => false,
        },
{
    match tid {
        Some(s) => if same(s.as_str(), "main") {
            Ok(Some(detect_main_thread(events)))
        } else {
            match parse_tid(s.as_str()) {
                Some(t) => Ok(Some(t)),
                None => Err(QueryError::BadTid(s.clone())),
            }
        },
        None => Ok(None),
    }
}

/// What a query is anchored at: the longest task, the first occurrence of a
/// pattern, a time, or nothing.
pub enum Center {
    Task(i64, i64),
    Pattern(Anchor),
    Time(i128),
    Nothing,
}

/// The longest task comes before a pattern, and that before a time.
pub open spec fn center_of(
    events: Seq<TraceEvent>,
    min_ts: i64,
    o: Options,
    source: Scope,
    c: Center,
) -> bool {
    if o.worst {
        match c {
            Center::Task(ts, dur) => exists|i: int| #[trigger]
                is_worst(events, source, i) && ts == events[i].ts && dur == dur_of(events[i]),
            Center::Nothing => forall|i: int|
                0 <= i < events.len() ==> !(is_timed_task(#[trigger] events[i]) && allows_source(
                    source,
                    events[i],
                )),
            _ => false,
        }
    } else {
        match o.anchor {
            Some(p) => match c {
                Center::Pattern(a) => exists|m: Matcher| #[trigger]
                    matcher_for(p@, o.regex, m) && anchor_of(events, m, Some(a)),
                Center::Nothing => exists|m: Matcher| #[trigger]
                    matcher_for(p@, o.regex, m) && anchor_of(events, m, None),
                _ => false,
            },
            None => match o.around {
                Some(t) => c matches Center::Time(x) && x == min_ts + t,
                None => c is Nothing,
            },
        }
    }
}

/// The pattern that the query is to be anchored at, if any, can be matched.
pub open spec fn anchor_ok(o: Options) -> bool {
    o.worst || (o.anchor matches Some(p) ==> pattern_ok(p@, o.regex))
}

fn find_center(events: &[TraceEvent], min_ts: i64, o: &Options, source: &Scope) -> (r: Result<
    Center,
    QueryError,
>)
    requires
        profile_fits(events@),
    ensures
        match r {
            Ok(c) => anchor_ok(*o) && center_of(events@, min_ts, *o, *source, c),
            Err(QueryError::BadTid(_)) => false,
            Err(_) => !anchor_ok(*o),
        },
{
    if o.worst {
        return match worst_runtask(events, source) {
            Some((ts, dur)) => Ok(Center::Task(ts, dur)),
            None => Ok(Center::Nothing),
        };
    }
    match &o.anchor {
        Some(p) => match make_matcher(p.as_str(), o.regex) {
            Ok(m) => {
                let found = find_anchor(events, &m);
                assert(matcher_for(p@, o.regex, m) && anchor_of(events@, m, found));
                match found {
                    Some(a) => Ok(Center::Pattern(a)),
                    None => Ok(Center::Nothing),
                }
            },
            Err(e) => Err(e),
        },
        None => match o.around {
            Some(t) => Ok(Center::Time(min_ts as i128 + t as i128)),
            None => Ok(Center::Nothing),
        },
    }
}

/// The time of the anchor.
pub open spec fn center_ts(c: Center) -> Option<int> {
    match c {
        Center::Task(ts, _) => Some(ts as int),
        Center::Pattern(a) => Some(a.ts as int),
        Center::Time(t) => Some(t as int),
        Center::Nothing => None,
    }
}

/// Half the width of the window: as asked for; else half of the longest task
/// and not less than fifty milliseconds, or a hundred of them.
pub open spec fn half_width(asked: Option<i64>, c: Center) -> int {
    match asked {
        Some(w) => w as int,
        None => match c {
            Center::Task(_, dur) => if dur > 100_000_000 {
                dur as int / 2
            } else {
                50_000_000
            },
            _ => HALF_WINDOW as int,
        },
    }
}

fn find_half(asked: Option<i64>, c: &Center) -> (r: i64)
    ensures
        r == half_width(asked, *c),
{
    match asked {
        Some(w) => w,
        None => match c {
            Center::Task(_, dur) => if *dur > 100_000_000 {
                *dur / 2
            } else {
                50_000_000
            },
            _ => HALF_WINDOW,
        },
    }
}

/// What is told of the anchor; nothing of a time that was asked for.
pub open spec fn note_pieces(c: Center, half: int, min_ts: i64) -> Option<Seq<PieceView>> {
    match c {
        Center::Task(ts, dur) => Some(
            seq![
                txt("Anchored at worst RunTask: t="@),
                ms(ts - min_ts),
                txt("ms, dur="@),
                ms(dur as int),
                txt("ms (window ±"@),
                PieceView::Number(ratio_num(half, 1_000_000, 1, 0, false)),
                txt("ms)"@),
            ],
        ),
        Center::Pattern(a) => Some(
            seq![
                txt("Anchored at "@),
                txt(a.kind@),
                txt(" `"@),
                txt(a.label@),
                txt("` — t="@),
                ms(nearest_ts(a.ts as int) - min_ts),
                txt("ms"@),
            ],
        ),
        _ => None,
    }
}

pub open spec fn opt_doc_view(d: Option<Doc>) -> Option<Seq<PieceView>> {
    match d {
        Some(x) => Some(doc_view(x@)),
        None => None,
    }
}

#[verifier::rlimit(30)]
fn make_note(c: &Center, half: i64, min_ts: i64) -> (r: Option<Doc>)
    ensures
        opt_doc_view(r) == note_pieces(*c, half as int, min_ts),
{
    let mut d: Doc = Vec::new();
    match c {
        Center::Task(ts, dur) => {
            put(&mut d, "Anchored at worst RunTask: t=");
            put_num(&mut d, make_ms(*ts as i128 - min_ts as i128));
            put(&mut d, "ms, dur=");
            put_num(&mut d, make_ms(*dur as i128));
            put(&mut d, "ms (window ±");
            put_num(&mut d, make_ratio(half as i128, 1_000_000, 1, 0, false));
            put(&mut d, "ms)");
            assert(doc_view(d@) =~= note_pieces(*c, half as int, min_ts)->0);
            Some(d)
        },
        Center::Pattern(a) => {
            put(&mut d, "Anchored at ");
            put(&mut d, a.kind);
            put(&mut d, " `");
            put(&mut d, a.label.as_str());
            put(&mut d, "` — t=");
            put_num(&mut d, make_ms(clamp_ts(a.ts) as i128 - min_ts as i128));
            put(&mut d, "ms");
            assert(doc_view(d@) =~= note_pieces(*c, half as int, min_ts)->0);
            Some(d)
        },
        _ => None,
    }
}

/// The anchor of a query with the three windows around it. All are missing
/// where there is no anchor.
pub struct WindowState {
    /// The window at the anchor, and thread, process and category.
    pub scope: Scope,
    pub pre: Option<(i64, i64)>,
    pub shoot: Option<(i64, i64)>,
    pub post: Option<(i64, i64)>,
    pub anchor_ts: Option<i64>,
    pub anchor_note: Option<Doc>,
    /// A pattern was to be found and was not.
    pub missed: bool,
}

/// The windows around a time: `half` to either side at it, then `pre` before
/// and `post` after that.
pub open spec fn windows_around(ts: int, half: int, pre: int, post: int) -> (
    (i64, i64),
    (i64, i64),
    (i64, i64),
) {
    (
        (nearest_ts(ts - (pre + half)), nearest_ts(ts - half)),
        window_around(ts, half),
        (nearest_ts(ts + half), nearest_ts(ts + (half + post))),
    )
}

pub open spec fn opt_lowercased(cat: Option<Seq<char>>) -> Option<Seq<char>> {
    match cat {
        Some(c) => Some(lowercased(c)),
        None => None,
    }
}

/// The scope of a query, its window aside.
pub open spec fn source_of(events: Seq<TraceEvent>, o: Options, s: Scope) -> bool {
    &&& tid_of(events, opt_chars(o.tid), s.tid)
    &&& s.pid == o.pid
    &&& opt_chars(s.cat) == opt_lowercased(opt_chars(o.cat))
}

/// What the windows around a center are.
pub open spec fn windows_at(c: Center, o: Options, min_ts: i64, w: WindowState) -> bool {
    let half = half_width(o.window, c);
    &&& w.scope.window == w.shoot
    &&& opt_doc_view(w.anchor_note) == note_pieces(c, half, min_ts)
    &&& w.missed == (c is Nothing && !o.worst && o.anchor is Some)
    &&& match center_ts(c) {
        Some(ts) => {
            let (pre, shoot, post) = windows_around(ts, half, o.pre as int, o.post as int);
            &&& w.anchor_ts == Some(nearest_ts(ts))
            &&& w.pre == Some(pre)
            &&& w.shoot == Some(shoot)
            &&& w.post == Some(post)
        },
        None => w.anchor_ts is None && w.pre is None && w.shoot is None && w.post is None,
    }
}

/// What the windows of a query are.
pub open spec fn windows_of(events: Seq<TraceEvent>, min_ts: i64, o: Options, w: WindowState) -> bool {
    &&& source_of(events, o, w.scope)
    &&& exists|c: Center| #[trigger]
        center_of(events, min_ts, o, w.scope, c) && windows_at(c, o, min_ts, w)
}

fn lower_opt(cat: &Option<String>) -> (r: Option<String>)
    ensures
        opt_chars(r) == opt_lowercased(opt_chars(*cat)),
{
    match cat {
        Some(c) => Some(c.as_str().to_lowercase()),
        None => None,
    }
}

/// The center does not depend on the window of the scope.
proof fn lemma_center_source(events: Seq<TraceEvent>, min_ts: i64, o: Options, a: Scope, b: Scope, c: Center)
    requires
        center_of(events, min_ts, o, a, c),
        a.tid == b.tid,
        a.pid == b.pid,
        a.cat == b.cat,
    ensures
        center_of(events, min_ts, o, b, c),
{
    assert forall|e: TraceEvent| allows_source(a, e) == allows_source(b, e) by {}
    if o.worst {
        if let Center::Task(ts, dur) = c {
            let i = choose|i: int| #[trigger]
                is_worst(events, a, i) && ts == events[i].ts && dur == dur_of(events[i]);
            assert(is_worst(events, b, i));
        }
    }
}

/// Find the anchor of a query and the windows around it.
pub fn resolve_windows(events: &[TraceEvent], min_ts: i64, o: &Options) -> (r: Result<
    WindowState,
    QueryError,
>)
    requires
        profile_fits(events@),
    ensures
        match r {
            Ok(w) => tid_ok(opt_chars(o.tid)) && anchor_ok(*o) && windows_of(
                events@,
                min_ts,
                *o,
                w,
            ),
            Err(QueryError::BadTid(s)) => !tid_ok(opt_chars(o.tid)) && opt_chars(o.tid) == Some(s@),
            Err(_) => tid_ok(opt_chars(o.tid)) && !anchor_ok(*o),
        },
{
    let tid = match find_tid(events, &o.tid) {
        Ok(t) => t,
        Err(e) => {
            return Err(e);
        },
    };
    let mut scope = Scope { window: None, tid, pid: o.pid, cat: lower_opt(&o.cat) };
    let center = match find_center(events, min_ts, o, &scope) {
        Ok(c) => c,
        Err(e) => {
            return Err(e);
        },
    };
    let ghost source = scope;
    let half = find_half(o.window, &center);
    let anchor_note = make_note(&center, half, min_ts);
    let ts: Option<i128> = match &center {
        Center::Task(ts, _) => Some(*ts as i128),
        Center::Pattern(a) => Some(a.ts),
        Center::Time(t) => Some(*t),
        Center::Nothing => None,
    };
    let missed = ts.is_none() && !o.worst && o.anchor.is_some();
    let h: i128 = half as i128;
    let w = match ts {
        Some(t) => {
            let shoot = (sum_ts(t, -h), sum_ts(t, h));
            scope.window = Some(shoot);
            WindowState {
                scope,
                pre: Some((sum_ts(t, -(o.pre as i128 + h)), shoot.0)),
                shoot: Some(shoot),
                post: Some((shoot.1, sum_ts(t, h + o.post as i128))),
                anchor_ts: Some(clamp_ts(t)),
                anchor_note,
                missed,
            }
        },
        None => WindowState {
            scope,
            pre: None,
            shoot: None,
            post: None,
            anchor_ts: None,
            anchor_note,
            missed,
        },
    };
    proof {
        lemma_center_source(events@, min_ts, *o, source, w.scope, center);
        assert(windows_at(center, *o, min_ts, w));
    }
    Ok(w)
}

/// The nearest time to the sum of a time and a span.
fn sum_ts(t: i128, d: i128) -> (r: i64)
    requires
        -0x4_0000_0000_0000_0000 <= d <= 0x4_0000_0000_0000_0000,
    ensures
        r == nearest_ts(t + d),
{
    if t > 0x10_0000_0000_0000_0000 {
        i64::MAX
    } else if t < -0x10_0000_0000_0000_0000 {
        i64::MIN
    } else {
        clamp_ts(t + d)
    }
}

/// The three windows of an anchor lie side by side: the one before it ends
/// where the one at it starts, and that ends where the one after it starts.
pub proof fn lemma_windows_adjoin(events: Seq<TraceEvent>, min_ts: i64, o: Options, w: WindowState)
    requires
        windows_of(events, min_ts, o, w),
        w.shoot is Some,
    ensures
        match (w.pre, w.shoot, w.post) {
            (Some((a, b)), Some((c, d)), Some((e, f))) => {
                &&& b == c
                &&& d == e
                &&& o.pre >= 0 ==> a <= b
                &&& o.post >= 0 ==> e <= f
            },
            _ => false,
        },
{
}

} // verus!
