//! The sections that answer a query.

use vstd::prelude::*;
use crate::analysis::cpu::{cache_of, profile_fits, CpuProfileCache};
use crate::analysis::jank::{jank_of, JankResult};
use crate::doc::{doc_view, put, Doc, PieceView};
use crate::inspect::chain::tree_shaped;
use crate::inspect::events::{events_pieces, events_section, listed, sorted_events, Sort};
use crate::inspect::find::{find_pieces, find_section, finds_of, nodes_found, Found};
use crate::inspect::group::positions;
use crate::inspect::jank::{jank_pieces, jank_section};
use crate::inspect::names::{
    in_scope,
    names_pieces,
    names_section,
    rows_by_name,
    stat_rows,
    stats_pieces,
    stats_section,
    NameRow,
    StatRow,
};
use crate::inspect::stacks::{
    functions_of,
    functions_pieces,
    functions_section,
    scope_cache,
    stacks_of,
    stacks_pieces,
    stacks_section,
    FunctionList,
    StackList,
};
use crate::inspect::task::{task_rows, task_section, task_section_pieces, TaskRow};
use crate::inspect::threads::{thread_rows, threads_pieces, threads_section, ThreadRow};
use crate::inspect::timeline::{
    timeline_fits,
    timeline_of,
    timeline_pieces,
    timeline_section,
    Timeline,
};
use crate::matcher::{
    compiled_from,
    regex_pattern,
    regex_valid,
    same_texts,
    Matcher,
    NameFilter,
};
use crate::query::options::{
    make_matcher,
    make_matcher_opt,
    matcher_for,
    matcher_opt_for,
    names_in,
    pattern_opt_ok,
    sort_named,
    sort_of,
    split_names,
    trim,
    trimmed,
    Options,
    QueryError,
};
use crate::query::windows::WindowState;
use crate::render::txt;
use crate::table::name_views;
use crate::trace::event::{opt_chars, TraceEvent};
use crate::trace::meta::is_main_thread;
use crate::windowed::calltree::{calltree_pieces, calltree_section, section_rows, CallRow};
use crate::windowed::delta::{delta_of, delta_pieces, delta_section, rows_fit, DeltaData};
use crate::windowed::frames::{frames_of, frames_pieces, frames_section, FrameStats};
use crate::windowed::gc::{gc_pieces, gc_section, report_of, GcReport};

verus! {

/// The sections that a query can ask for.
#[derive(Clone, Copy, PartialEq, Eq, Structural)]
pub enum Kind {
    Jank,
    Timeline,
    Task,
    Names,
    Threads,
    Stats,
    Events,
    Functions,
    Stacks,
    CallTree,
    Gc,
    Frames,
    Find,
    Delta,
    /// The tasks around the longest one.
    Worst,
}

pub open spec fn key_of(k: Kind) -> Seq<char> {
    match k {
        Kind::Jank => "jank"@,
        Kind::Timeline => "timeline"@,
        Kind::Task => "task"@,
        Kind::Names => "names"@,
        Kind::Threads => "threads"@,
        Kind::Stats => "stats"@,
        Kind::Events => "events"@,
        Kind::Functions => "functions"@,
        Kind::Stacks => "stacks"@,
        Kind::CallTree => "calltree"@,
        Kind::Gc => "gc"@,
        Kind::Frames => "frames"@,
        Kind::Find => "find"@,
        Kind::Delta => "delta"@,
        Kind::Worst => "events"@,
    }
}

impl Kind {
    /// The name of the section in machine-readable output.
    pub fn key(&self) -> (r: &'static str)
        ensures
            r@ == key_of(*self),
    {
        match self {
            Kind::Jank => "jank",
            Kind::Timeline => "timeline",
            Kind::Task => "task",
            Kind::Names => "names",
            Kind::Threads => "threads",
            Kind::Stats => "stats",
            Kind::Events => "events",
            Kind::Functions => "functions",
            Kind::Stacks => "stacks",
            Kind::CallTree => "calltree",
            Kind::Gc => "gc",
            Kind::Frames => "frames",
            Kind::Find => "find",
            Kind::Delta => "delta",
            Kind::Worst => "events",
        }
    }
}

/// How many sections there are to ask for.
pub const KINDS: usize = 13;

/// The section at place `i` of the order in which they are told, where the
/// flags ask for it.
pub open spec fn asked_at(o: Options, i: int) -> Option<Kind> {
    if i == 0 && o.jank {
        Some(Kind::Jank)
    } else if i == 1 && o.timeline {
        Some(Kind::Timeline)
    } else if i == 2 && o.task {
        Some(Kind::Task)
    } else if i == 3 && o.names {
        Some(Kind::Names)
    } else if i == 4 && o.threads {
        Some(Kind::Threads)
    } else if i == 5 && o.events is Some && o.stats {
        Some(Kind::Stats)
    } else if i == 5 && o.events is Some {
        Some(Kind::Events)
    } else if i == 6 && o.function is Some {
        Some(Kind::Functions)
    } else if i == 7 && o.stacks {
        Some(Kind::Stacks)
    } else if i == 8 && o.calltree {
        Some(Kind::CallTree)
    } else if i == 9 && o.gc {
        Some(Kind::Gc)
    } else if i == 10 && o.frames {
        Some(Kind::Frames)
    } else if i == 11 && o.find is Some {
        Some(Kind::Find)
    } else if i == 12 && o.delta {
        Some(Kind::Delta)
    } else {
        None
    }
}

/// The sections that the flags ask for among the first `n`.
pub open spec fn asked_for(o: Options, n: int) -> Seq<Kind>
    decreases n,
{
    if n <= 0 {
        Seq::empty()
    } else {
        match asked_at(o, n - 1) {
            Some(k) => asked_for(o, n - 1).push(k),
            None => asked_for(o, n - 1),
        }
    }
}

/// The sections of a query: those asked for, or the tasks around the longest
/// one where only that was.
pub open spec fn kinds_of(o: Options) -> Seq<Kind> {
    if o.worst && asked_for(o, KINDS as int).len() == 0 {
        seq![Kind::Worst]
    } else {
        asked_for(o, KINDS as int)
    }
}

fn kind_at(o: &Options, i: usize) -> (r: Option<Kind>)
    ensures
        r == asked_at(*o, i as int),
{
    if i == 0 && o.jank {
        Some(Kind::Jank)
    } else if i == 1 && o.timeline {
        Some(Kind::Timeline)
    } else if i == 2 && o.task {
        Some(Kind::Task)
    } else if i == 3 && o.names {
        Some(Kind::Names)
    } else if i == 4 && o.threads {
        Some(Kind::Threads)
    } else if i == 5 && o.events.is_some() && o.stats {
        Some(Kind::Stats)
    } else if i == 5 && o.events.is_some() {
        Some(Kind::Events)
    } else if i == 6 && o.function.is_some() {
        Some(Kind::Functions)
    } else if i == 7 && o.stacks {
        Some(Kind::Stacks)
    } else if i == 8 && o.calltree {
        Some(Kind::CallTree)
    } else if i == 9 && o.gc {
        Some(Kind::Gc)
    } else if i == 10 && o.frames {
        Some(Kind::Frames)
    } else if i == 11 && o.find.is_some() {
        Some(Kind::Find)
    } else if i == 12 && o.delta {
        Some(Kind::Delta)
    } else {
        None
    }
}

/// The sections of a query.
pub fn list_kinds(o: &Options) -> (v: Vec<Kind>)
    ensures
        v@ == kinds_of(*o),
{
    let mut v: Vec<Kind> = Vec::new();
    let mut i: usize = 0;
    assert(v@ =~= asked_for(*o, 0));
    while i < KINDS
        invariant
            i <= KINDS,
            v@ == asked_for(*o, i as int),
        decreases KINDS - i,
    {
        if let Some(k) = kind_at(o, i) {
            v.push(k);
        }
        i = i + 1;
    }
    if o.worst && v.len() == 0 {
        v.push(Kind::Worst);
        assert(v@ =~= seq![Kind::Worst]);
    }
    v
}

/// What a section says.
pub enum Answer {
    Jank(JankResult),
    Timeline(Timeline),
    Task(Vec<TaskRow>),
    Names(Vec<NameRow>),
    Threads(Vec<ThreadRow>),
    Stats(Vec<StatRow>),
    /// Positions in the trace.
    Events(Vec<usize>),
    Functions(FunctionList),
    Stacks(StackList),
    /// The rows, and the time of all samples.
    CallTree(Vec<CallRow>, i128),
    Gc(GcReport),
    Frames(FrameStats),
    Find(Found),
    Delta(DeltaData),
    /// There is no anchor to compare around.
    NoAnchor,
}

/// A section: which it is, its text, and what it says.
pub struct Section {
    pub kind: Kind,
    pub doc: Doc,
    pub answer: Answer,
}

/// `f` is the filter for a list of names.
pub open spec fn filter_for(raw: Seq<char>, regex: bool, f: NameFilter) -> bool {
    let names = names_in(raw);
    match f {
        NameFilter::Exact(v) => !regex && name_views(v@) == names,
        NameFilter::Regex(v) => regex && v@.len() == names.len() && forall|i: int|
            0 <= i < names.len() ==> regex_pattern(#[trigger] v@[i]) == names[i],
    }
}

/// The names can be matched: as regular expressions, each is one.
pub open spec fn names_ok(raw: Seq<char>, regex: bool) -> bool {
    regex ==> forall|i: int|
        0 <= i < names_in(raw).len() ==> regex_valid(#[trigger] names_in(raw)[i])
}

fn make_filter(raw: &str, regex: bool) -> (r: Result<NameFilter, QueryError>)
    ensures
        match r {
            Ok(f) => names_ok(raw@, regex) && filter_for(raw@, regex, f),
            Err(QueryError::BadPattern(_)) => !names_ok(raw@, regex),
            Err(_) => false,
        },
{
    let names = split_names(raw);
    match NameFilter::new(&names, regex) {
        Ok(f) => {
            proof {
                assert(name_views(names@).len() == names@.len());
                match &f {
                    NameFilter::Exact(v) => {
                        assert(same_texts(v@, names@));
                        assert(name_views(v@) =~= name_views(names@));
                    },
                    NameFilter::Regex(v) => {
                        assert(compiled_from(v@, names@));
                        assert forall|i: int| 0 <= i < names@.len() implies regex_valid(
                            #[trigger] names_in(raw@)[i],
                        ) by {
                            assert(regex_pattern(v@[i]) == names@[i]@);
                        }
                        assert forall|i: int| 0 <= i < names@.len() implies regex_pattern(
                            #[trigger] v@[i],
                        ) == names_in(raw@)[i] by {
                            assert(name_views(names@)[i] == names@[i]@);
                        }
                    },
                }
            }
            Ok(f)
        },
        Err(e) => {
            proof {
                let i = choose|i: int|
                    0 <= i < names@.len() && !regex_valid((#[trigger] names@[i])@);
                assert(names_in(raw@)[i] == names@[i]@);
            }
            Err(QueryError::BadPattern(e))
        },
    }
}

/// The least duration asked for.
pub open spec fn least_dur(o: Options) -> i64 {
    match o.min_dur {
        Some(d) => d,
        None => 0,
    }
}

fn find_least(o: &Options) -> (r: i64)
    ensures
        r == least_dur(*o),
{
    match o.min_dur {
        Some(d) => d,
        None => 0,
    }
}

pub open spec fn opt_ref(m: Option<Matcher>) -> Option<&'static Matcher> {
    match m {
        Some(x) => Some(&x),
        None => None,
    }
}

/// What is told where there is no anchor to compare around.
pub open spec fn no_anchor() -> Seq<char> {
    "**--delta requires an anchor: --anchor <substr>, --around <ms> or --worst.**\n\n"@
}

/// What a list of events says.
pub open spec fn events_answer(
    events: Seq<TraceEvent>,
    min_ts: i64,
    w: WindowState,
    o: Options,
    f: NameFilter,
    display: Seq<char>,
    min_dur: i64,
    sort: Sort,
    q: Seq<usize>,
    d: Seq<PieceView>,
) -> bool {
    &&& sorted_events(events, positions(events, listed(f, w.scope, min_dur)), sort, q)
    &&& d == events_pieces(events, q, display, w.scope.window, o.full_args, o.top, min_ts)
}

pub open spec fn stats_answer(
    events: Seq<TraceEvent>,
    min_ts: i64,
    w: WindowState,
    f: NameFilter,
    display: Seq<char>,
    min_dur: i64,
    rows: Seq<StatRow>,
    d: Seq<PieceView>,
) -> bool {
    &&& stat_rows(events, positions(events, listed(f, w.scope, min_dur)), rows)
    &&& d == stats_pieces(rows, display, w.scope.window, min_ts)
}

pub open spec fn stacks_answer(
    events: Seq<TraceEvent>,
    min_ts: i64,
    w: WindowState,
    o: Options,
    m: Option<Matcher>,
    u: Option<Matcher>,
    l: StackList,
    d: Seq<PieceView>,
) -> bool {
    &&& exists|c: CpuProfileCache| #[trigger]
        scope_cache(events, w.scope, c) && stacks_of(c, opt_ref(m), opt_ref(u), o.top, l)
    &&& d == stacks_pieces(l, opt_ref(m), opt_ref(u), w.scope.window, min_ts)
}

pub open spec fn functions_answer(
    events: Seq<TraceEvent>,
    min_ts: i64,
    w: WindowState,
    o: Options,
    m: Matcher,
    u: Option<Matcher>,
    l: FunctionList,
    d: Seq<PieceView>,
) -> bool {
    &&& exists|c: CpuProfileCache| #[trigger]
        scope_cache(events, w.scope, c) && functions_of(c, m, opt_ref(u), l)
    &&& d == functions_pieces(l, m, opt_ref(u), w.scope.window, o.top, min_ts)
}

pub open spec fn tree_answer(
    events: Seq<TraceEvent>,
    min_ts: i64,
    w: WindowState,
    o: Options,
    name: Option<Matcher>,
    url: Option<Matcher>,
    rows: Seq<CallRow>,
    all: i128,
    d: Seq<PieceView>,
) -> bool {
    exists|reached: usize|
        {
            &&& #[trigger] section_rows(
                events,
                w.scope,
                opt_ref(name),
                opt_ref(url),
                o.top,
                rows,
                all,
                reached,
            )
            &&& d == calltree_pieces(
                rows,
                all as int,
                reached,
                o.top,
                opt_ref(name),
                opt_ref(url),
                w.scope.window,
                min_ts,
            )
        }
}

pub open spec fn find_answer(
    events: Seq<TraceEvent>,
    min_ts: i64,
    w: WindowState,
    o: Options,
    m: Matcher,
    f: Found,
    d: Seq<PieceView>,
) -> bool {
    &&& finds_of(events, m, w.scope, o.full_args, f.events@)
    &&& nodes_found(events, w.scope, m, f.nodes@)
    &&& d == find_pieces(events, f.events@, f.nodes@, m, o.top, min_ts)
}

pub open spec fn delta_answer(
    events: Seq<TraceEvent>,
    min_ts: i64,
    w: WindowState,
    o: Options,
    x: DeltaData,
    d: Seq<PieceView>,
) -> bool {
    &&& w.pre == Some(x.pre)
    &&& w.shoot == Some(x.shoot)
    &&& w.post == Some(x.post)
    &&& w.anchor_ts matches Some(t) && x.anchor == t
    &&& delta_of(events, o.frame_event@, o.lt, x)
    &&& rows_fit(x.rows@)
    &&& d == delta_pieces(x, min_ts)
}

pub open spec fn jank_answer(
    events: Seq<TraceEvent>,
    min_ts: i64,
    w: WindowState,
    o: Options,
    j: JankResult,
    d: Seq<PieceView>,
) -> bool {
    &&& exists|tid: u64| #[trigger]
        is_main_thread(events, tid) && jank_of(events, tid, w.scope.window, j)
    &&& d == jank_pieces(j, w.scope.window, o.top, min_ts)
}

pub open spec fn task_answer(
    events: Seq<TraceEvent>,
    min_ts: i64,
    w: WindowState,
    o: Options,
    rows: Seq<TaskRow>,
    d: Seq<PieceView>,
) -> bool {
    exists|all: usize| #[trigger]
        task_rows(events, w.scope, o.top, rows, all) && d == task_section_pieces(
            events,
            rows,
            all,
            w.scope.window,
            min_ts,
        )
}

/// All of the anchor's windows are there.
pub open spec fn anchored(w: WindowState) -> bool {
    w.pre is Some && w.shoot is Some && w.post is Some && w.anchor_ts is Some
}

/// What the section of one kind says.
pub open spec fn answers(
    events: Seq<TraceEvent>,
    min_ts: i64,
    w: WindowState,
    o: Options,
    kind: Kind,
    s: Section,
) -> bool {
    let d = doc_view(s.doc@);
    let window = w.scope.window;
    s.kind == kind && match (kind, s.answer) {
        (Kind::Jank, Answer::Jank(j)) => jank_answer(events, min_ts, w, o, j, d),
        (Kind::Timeline, Answer::Timeline(t)) => timeline_of(events, w.scope, o.bucket, min_ts, t)
            && d == timeline_pieces(t.rows@, t.plan, window, min_ts),
        (Kind::Task, Answer::Task(rows)) => task_answer(events, min_ts, w, o, rows@, d),
        (Kind::Names, Answer::Names(rows)) => rows_by_name(
            events,
            positions(events, in_scope(w.scope)),
            sort_named(opt_chars(o.sort)),
            rows@,
        ) && d == names_pieces(rows@, window, o.top, min_ts),
        (Kind::Threads, Answer::Threads(rows)) => thread_rows(
            events,
            positions(events, in_scope(w.scope)),
            rows@,
        ) && d == threads_pieces(rows@, window, o.top, min_ts),
        (Kind::Stats, Answer::Stats(rows)) => o.events matches Some(raw) && exists|f: NameFilter|
            #[trigger] filter_for(raw@, o.regex, f) && stats_answer(
                events,
                min_ts,
                w,
                f,
                trimmed(raw@),
                least_dur(o),
                rows@,
                d,
            ),
        (Kind::Events, Answer::Events(q)) => o.events matches Some(raw) && exists|f: NameFilter|
            #[trigger] filter_for(raw@, o.regex, f) && events_answer(
                events,
                min_ts,
                w,
                o,
                f,
                trimmed(raw@),
                least_dur(o),
                sort_named(opt_chars(o.sort)),
                q@,
                d,
            ),
        (Kind::Functions, Answer::Functions(l)) => o.function matches Some(p) && exists|
            m: Matcher,
            u: Option<Matcher>,
        |
            #[trigger] matcher_for(p@, o.regex, m) && #[trigger] matcher_opt_for(o.url, o.regex, u)
                && functions_answer(events, min_ts, w, o, m, u, l, d),
        (Kind::Stacks, Answer::Stacks(l)) => exists|m: Option<Matcher>, u: Option<Matcher>|
            #[trigger] matcher_opt_for(o.function, o.regex, m) && #[trigger] matcher_opt_for(
                o.url,
                o.regex,
                u,
            ) && stacks_answer(events, min_ts, w, o, m, u, l, d),
        (Kind::CallTree, Answer::CallTree(rows, all)) => exists|
            m: Option<Matcher>,
            u: Option<Matcher>,
        |
            #[trigger] matcher_opt_for(o.function, o.regex, m) && #[trigger] matcher_opt_for(
                o.url,
                o.regex,
                u,
            ) && tree_answer(events, min_ts, w, o, m, u, rows@, all, d),
        (Kind::Gc, Answer::Gc(r)) => report_of(events, w.scope, o.lt, r) && d == gc_pieces(
            r,
            o.lt,
            window,
            min_ts,
        ),
        (Kind::Frames, Answer::Frames(f)) => frames_of(events, w.scope, o.frame_event@, f) && d
            == frames_pieces(f, o.frame_event@, window, min_ts),
        (Kind::Find, Answer::Find(f)) => o.find matches Some(p) && exists|m: Matcher| #[trigger]
            matcher_for(p@, o.regex, m) && find_answer(events, min_ts, w, o, m, f, d),
        (Kind::Delta, Answer::Delta(x)) => delta_answer(events, min_ts, w, o, x, d),
        (Kind::Delta, Answer::NoAnchor) => !anchored(w) && d == seq![txt(no_anchor())],
        (Kind::Worst, Answer::Events(q)) => exists|f: NameFilter| #[trigger]
            runtask_filter(f) && events_answer(
                events,
                min_ts,
                w,
                o,
                f,
                "RunTask"@,
                0,
                Sort::Dur,
                q@,
                d,
            ),
        _ => false,
    }
}

/// The filter for tasks alone.
pub open spec fn runtask_filter(f: NameFilter) -> bool {
    f matches NameFilter::Exact(v) && name_views(v@) == seq!["RunTask"@]
}

/// The patterns that a section needs can be matched.
pub open spec fn kind_ok(o: Options, kind: Kind) -> bool {
    match kind {
        Kind::Stats | Kind::Events => o.events matches Some(raw) ==> names_ok(raw@, o.regex),
        Kind::Functions | Kind::Stacks | Kind::CallTree => pattern_opt_ok(o.function, o.regex)
            && pattern_opt_ok(o.url, o.regex),
        Kind::Find => pattern_opt_ok(o.find, o.regex),
        _ => true,
    }
}

/// The trace is within the limits of what the query asks for.
pub open spec fn answerable(events: Seq<TraceEvent>, min_ts: i64, w: WindowState, o: Options) -> bool {
    &&& profile_fits(events)
    &&& o.timeline ==> timeline_fits(events, w.scope.window, o.bucket, min_ts)
    &&& o.stacks ==> tree_shaped(events, w.scope)
}

fn list_events(events: &[TraceEvent], min_ts: i64, w: &WindowState, o: &Options, kind: Kind, raw: &str) -> (r:
    Result<Section, QueryError>)
    requires
        kind == Kind::Stats || kind == Kind::Events,
        o.events matches Some(x) && x@ == raw@,
    ensures
        match r {
            Ok(s) => kind_ok(*o, kind) && answers(events@, min_ts, *w, *o, kind, s),
            Err(QueryError::BadTid(_)) => false,
            Err(_) => !kind_ok(*o, kind),
        },
{
    let f = match make_filter(raw, o.regex) {
        Ok(f) => f,
        Err(e) => {
            return Err(e);
        },
    };
    let display = trim(raw);
    let least = find_least(o);
    assert(filter_for(raw@, o.regex, f));
    if let Kind::Stats = kind {
        let (doc, rows) = stats_section(events, &f, display.as_str(), &w.scope, least, min_ts);
        let s = Section { kind, doc, answer: Answer::Stats(rows) };
        assert(stats_answer(
            events@,
            min_ts,
            *w,
            f,
            trimmed(raw@),
            least_dur(*o),
            rows@,
            doc_view(s.doc@),
        ));
        return Ok(s);
    }
    let sort = sort_of(&o.sort);
    let (doc, q) = events_section(
        events,
        &f,
        display.as_str(),
        &w.scope,
        least,
        sort,
        o.full_args,
        o.top,
        min_ts,
    );
    let s = Section { kind, doc, answer: Answer::Events(q) };
    assert(events_answer(
        events@,
        min_ts,
        *w,
        *o,
        f,
        trimmed(raw@),
        least_dur(*o),
        sort_named(opt_chars(o.sort)),
        q@,
        doc_view(s.doc@),
    ));
    Ok(s)
}

fn list_worst(events: &[TraceEvent], min_ts: i64, w: &WindowState, o: &Options) -> (s: Section)
    ensures
        answers(events@, min_ts, *w, *o, Kind::Worst, s),
{
    let mut names: Vec<String> = Vec::new();
    names.push("RunTask".to_owned());
    let f = NameFilter::Exact(names);
    assert(name_views(names@) =~= seq!["RunTask"@]);
    assert(runtask_filter(f));
    let (doc, q) = events_section(
        events,
        &f,
        "RunTask",
        &w.scope,
        0,
        Sort::Dur,
        o.full_args,
        o.top,
        min_ts,
    );
    let s = Section { kind: Kind::Worst, doc, answer: Answer::Events(q) };
    assert(events_answer(
        events@,
        min_ts,
        *w,
        *o,
        f,
        "RunTask"@,
        0,
        Sort::Dur,
        q@,
        doc_view(s.doc@),
    ));
    s
}

fn list_sampled(
    events: &[TraceEvent],
    min_ts: i64,
    w: &WindowState,
    o: &Options,
    kind: Kind,
    cache: Option<&CpuProfileCache>,
) -> (r: Result<Section, QueryError>)
    requires
        profile_fits(events@),
        kind == Kind::Functions && o.function is Some || kind == Kind::Stacks && tree_shaped(
            events@,
            w.scope,
        ) || kind == Kind::CallTree,
        cache matches Some(c) ==> cache_of(events@, *c),
    ensures
        match r {
            Ok(s) => kind_ok(*o, kind) && answers(events@, min_ts, *w, *o, kind, s),
            Err(QueryError::BadTid(_)) => false,
            Err(_) => !kind_ok(*o, kind),
        },
{
    let name = match make_matcher_opt(&o.function, o.regex) {
        Ok(m) => m,
        Err(e) => {
            return Err(e);
        },
    };
    let by = match &name {
        Some(m) => Some(m),
        None => None,
    };
    assert(by == opt_ref(name));
    assert(matcher_opt_for(o.function, o.regex, name));
    let url = match make_matcher_opt(&o.url, o.regex) {
        Ok(m) => m,
        Err(e) => {
            return Err(e);
        },
    };
    let at = match &url {
        Some(m) => Some(m),
        None => None,
    };
    assert(at == opt_ref(url));
    assert(matcher_opt_for(o.url, o.regex, url));
    match kind {
        Kind::Stacks => {
            let (doc, l) = stacks_section(events, by, at, &w.scope, o.top, min_ts, cache);
            let s = Section { kind, doc, answer: Answer::Stacks(l) };
            assert(stacks_answer(events@, min_ts, *w, *o, name, url, l, doc_view(s.doc@)));
            Ok(s)
        },
        Kind::CallTree => {
            let (doc, rows, all) = calltree_section(events, &w.scope, by, at, o.top, min_ts, cache);
            let s = Section { kind, doc, answer: Answer::CallTree(rows, all) };
            assert(tree_answer(
                events@,
                min_ts,
                *w,
                *o,
                name,
                url,
                rows@,
                all,
                doc_view(s.doc@),
            ));
            Ok(s)
        },
        _ => {
            match &name {
                Some(m) => {
                    let (doc, l) = functions_section(
                        events,
                        m,
                        at,
                        &w.scope,
                        o.top,
                        min_ts,
                        cache,
                    );
                    let s = Section { kind, doc, answer: Answer::Functions(l) };
                    assert(functions_answer(events@, min_ts, *w, *o, *m, url, l, doc_view(s.doc@)));
                    assert(matcher_for(o.function->0@, o.regex, *m));
                    Ok(s)
                },
                None => {
                    assert(false);
                    Err(QueryError::BadPattern(String::new()))
                },
            }
        },
    }
}

fn list_delta(events: &[TraceEvent], min_ts: i64, w: &WindowState, o: &Options) -> (s: Section)
    requires
        profile_fits(events@),
    ensures
        answers(events@, min_ts, *w, *o, Kind::Delta, s),
{
    match (w.pre, w.shoot, w.post, w.anchor_ts) {
        (Some(p), Some(sh), Some(q), Some(a)) => {
            let (doc, x) = delta_section(
                events,
                p,
                sh,
                q,
                a as i128,
                o.frame_event.as_str(),
                o.lt,
                min_ts,
            );
            Section { kind: Kind::Delta, doc, answer: Answer::Delta(x) }
        },
        _ => {
            let mut doc: Doc = Vec::new();
            put(
                &mut doc,
                "**--delta requires an anchor: --anchor <substr>, --around <ms> or --worst.**\n\n",
            );
            assert(doc_view(doc@) =~= seq![txt(no_anchor())]);
            Section { kind: Kind::Delta, doc, answer: Answer::NoAnchor }
        },
    }
}

fn list_plain(events: &[TraceEvent], min_ts: i64, w: &WindowState, o: &Options, kind: Kind) -> (s: Section)
    requires
        profile_fits(events@),
        kind == Kind::Timeline ==> timeline_fits(events@, w.scope.window, o.bucket, min_ts),
        kind == Kind::Jank || kind == Kind::Timeline || kind == Kind::Task || kind == Kind::Names
            || kind == Kind::Threads || kind == Kind::Gc || kind == Kind::Frames,
    ensures
        answers(events@, min_ts, *w, *o, kind, s),
{
    match kind {
        Kind::Jank => {
            let (doc, j) = jank_section(events, &w.scope, o.top, min_ts);
            let s = Section { kind, doc, answer: Answer::Jank(j) };
            assert(jank_answer(events@, min_ts, *w, *o, j, doc_view(s.doc@)));
            s
        },
        Kind::Timeline => {
            let (doc, t) = timeline_section(events, &w.scope, o.bucket, min_ts);
            Section { kind, doc, answer: Answer::Timeline(t) }
        },
        Kind::Task => {
            let (doc, rows) = task_section(events, &w.scope, o.top, min_ts);
            let s = Section { kind, doc, answer: Answer::Task(rows) };
            assert(task_answer(events@, min_ts, *w, *o, rows@, doc_view(s.doc@)));
            s
        },
        Kind::Names => {
            let (doc, rows) = names_section(events, &w.scope, sort_of(&o.sort), o.top, min_ts);
            Section { kind, doc, answer: Answer::Names(rows) }
        },
        Kind::Threads => {
            let (doc, rows) = threads_section(events, &w.scope, o.top, min_ts);
            Section { kind, doc, answer: Answer::Threads(rows) }
        },
        Kind::Gc => {
            let (doc, r) = gc_section(events, &w.scope, o.lt, min_ts);
            Section { kind, doc, answer: Answer::Gc(r) }
        },
        _ => {
            let (doc, f) = frames_section(events, &w.scope, o.frame_event.as_str(), min_ts);
            Section { kind, doc, answer: Answer::Frames(f) }
        },
    }
}

fn list_find(
    events: &[TraceEvent],
    min_ts: i64,
    w: &WindowState,
    o: &Options,
    needle: &str,
    cache: Option<&CpuProfileCache>,
) -> (r: Result<Section, QueryError>)
    requires
        profile_fits(events@),
        o.find matches Some(x) && x@ == needle@,
        cache matches Some(c) ==> cache_of(events@, *c),
    ensures
        match r {
            Ok(s) => kind_ok(*o, Kind::Find) && answers(events@, min_ts, *w, *o, Kind::Find, s),
            Err(QueryError::BadTid(_)) => false,
            Err(_) => !kind_ok(*o, Kind::Find),
        },
{
    match make_matcher(needle, o.regex) {
        Ok(m) => {
            let (doc, f) = find_section(events, &m, &w.scope, o.full_args, o.top, min_ts, cache);
            let s = Section { kind: Kind::Find, doc, answer: Answer::Find(f) };
            assert(find_answer(events@, min_ts, *w, *o, m, f, doc_view(s.doc@)));
            assert(matcher_for(o.find->0@, o.regex, m));
            Ok(s)
        },
        Err(e) => Err(e),
    }
}

/// What the flags ask of a kind that they ask for.
pub open spec fn asks(o: Options, kind: Kind) -> bool {
    match kind {
        Kind::Timeline => o.timeline,
        Kind::Stacks => o.stacks,
        Kind::Stats | Kind::Events => o.events is Some,
        Kind::Functions => o.function is Some,
        Kind::Find => o.find is Some,
        _ => true,
    }
}

proof fn lemma_asked(o: Options, n: int, k: int)
    requires
        0 <= k < asked_for(o, n).len(),
    ensures
        asks(o, asked_for(o, n)[k]),
    decreases n,
{
    if n > 0 && k < asked_for(o, n - 1).len() {
        lemma_asked(o, n - 1, k);
    }
}

proof fn lemma_kinds_asked(o: Options, k: int)
    requires
        0 <= k < kinds_of(o).len(),
    ensures
        asks(o, kinds_of(o)[k]),
{
    if !(o.worst && asked_for(o, KINDS as int).len() == 0) {
        lemma_asked(o, KINDS as int, k);
    }
}

fn build_section(
    events: &[TraceEvent],
    min_ts: i64,
    w: &WindowState,
    o: &Options,
    kind: Kind,
    cache: Option<&CpuProfileCache>,
) -> (r: Result<Section, QueryError>)
    requires
        answerable(events@, min_ts, *w, *o),
        asks(*o, kind),
        cache matches Some(c) ==> cache_of(events@, *c),
    ensures
        match r {
            Ok(s) => kind_ok(*o, kind) && answers(events@, min_ts, *w, *o, kind, s),
            Err(QueryError::BadTid(_)) => false,
            Err(_) => !kind_ok(*o, kind),
        },
{
    match kind {
        Kind::Stats | Kind::Events => match &o.events {
            Some(raw) => list_events(events, min_ts, w, o, kind, raw.as_str()),
            None => {
                assert(false);
                Err(QueryError::BadPattern(String::new()))
            },
        },
        Kind::Functions | Kind::Stacks | Kind::CallTree => list_sampled(
            events,
            min_ts,
            w,
            o,
            kind,
            cache,
        ),
        Kind::Find => match &o.find {
            Some(p) => list_find(events, min_ts, w, o, p.as_str(), cache),
            None => {
                assert(false);
                Err(QueryError::BadPattern(String::new()))
            },
        },
        Kind::Delta => Ok(list_delta(events, min_ts, w, o)),
        Kind::Worst => Ok(list_worst(events, min_ts, w, o)),
        _ => Ok(list_plain(events, min_ts, w, o, kind)),
    }
}

/// One section for each kind that the query asks for, in their order.
pub open spec fn sections_of(
    events: Seq<TraceEvent>,
    min_ts: i64,
    w: WindowState,
    o: Options,
    s: Seq<Section>,
) -> bool {
    &&& s.len() == kinds_of(o).len()
    &&& forall|k: int|
        0 <= k < s.len() ==> answers(events, min_ts, w, o, kinds_of(o)[k], #[trigger] s[k])
}

/// The patterns of the query can be matched.
pub open spec fn patterns_ok(o: Options) -> bool {
    forall|k: int| 0 <= k < kinds_of(o).len() ==> kind_ok(o, #[trigger] kinds_of(o)[k])
}

/// Build the sections that a query asks for.
pub fn build_sections(
    events: &[TraceEvent],
    min_ts: i64,
    w: &WindowState,
    o: &Options,
    cache: Option<&CpuProfileCache>,
) -> (r: Result<Vec<Section>, QueryError>)
    requires
        answerable(events@, min_ts, *w, *o),
        cache matches Some(c) ==> cache_of(events@, *c),
    ensures
        match r {
            Ok(s) => patterns_ok(*o) && sections_of(events@, min_ts, *w, *o, s@),
            Err(QueryError::BadTid(_)) => false,
            Err(_) => !patterns_ok(*o),
        },
{
    let kinds = list_kinds(o);
    let mut sections: Vec<Section> = Vec::new();
    let mut k: usize = 0;
    while k < kinds.len()
        invariant
            k <= kinds@.len(),
            kinds@ == kinds_of(*o),
            answerable(events@, min_ts, *w, *o),
            cache matches Some(c) ==> cache_of(events@, *c),
            sections@.len() == k,
            forall|j: int| 0 <= j < k ==> kind_ok(*o, #[trigger] kinds@[j]),
            forall|j: int|
                0 <= j < k ==> answers(events@, min_ts, *w, *o, kinds@[j], #[trigger] sections@[j]),
        decreases kinds@.len() - k,
    {
        proof {
            lemma_kinds_asked(*o, k as int);
        }
        match build_section(events, min_ts, w, o, kinds[k], cache) {
            Ok(s) => {
                sections.push(s);
            },
            Err(e) => {
                assert(!kind_ok(*o, kinds_of(*o)[k as int]));
                return Err(e);
            },
        }
        k = k + 1;
    }
    Ok(sections)
}

/// A query without an anchor is told so where it asks to compare around one.
pub proof fn lemma_delta_needs_anchor(
    events: Seq<TraceEvent>,
    min_ts: i64,
    w: WindowState,
    o: Options,
    s: Section,
)
    requires
        answers(events, min_ts, w, o, Kind::Delta, s),
    ensures
        s.answer is NoAnchor <==> !anchored(w),
        s.answer is NoAnchor ==> doc_view(s.doc@) == seq![txt(no_anchor())],
{
}

} // verus!
