//! Lists of events and the distribution of their durations.

use vstd::prelude::*;
use crate::analysis::common::{dur_of, dur_or_zero};
use crate::compact::{compact, compact_text};
use crate::doc::{doc_view, make_ms, put, put_num, put_u64, Doc, PieceView};
use crate::inspect::group::{lemma_positions, positions, positions_in};
use crate::matcher::{filter_passes, NameFilter};
use crate::render::{
    more_pieces,
    ms,
    put_more,
    put_window_block,
    shortened,
    truncate,
    txt,
    window_block,
    window_label,
    window_word,
};
use crate::scope::{allows, Scope};
use crate::sort::{order, orders, pick, picks, row_keys, sort_rows, sorts, RowKey};
use crate::text::decimal;
use crate::trace::event::TraceEvent;

verus! {

/// Order of the rows of a list.
#[derive(Clone, Copy, PartialEq, Eq, Structural)]
pub enum Sort {
    Ts,
    Dur,
    Name,
    Count,
}

/// The filter and the scope let the event through, and it lasts long enough.
pub open spec fn listed(filter: NameFilter, scope: Scope, min_dur: i64) -> spec_fn(TraceEvent) -> bool {
    |e: TraceEvent|
        filter_passes(filter, e.name@) && dur_of(e) >= min_dur && allows(scope, e)
}

/// Positions of the events that are listed.
pub fn select(events: &[TraceEvent], filter: &NameFilter, scope: &Scope, min_dur: i64) -> (p: Vec<usize>)
    ensures
        p@ == positions(events@, listed(*filter, *scope, min_dur)),
{
    let n = events.len();
    let ghost f = listed(*filter, *scope, min_dur);
    let mut p: Vec<usize> = Vec::new();
    let mut i: usize = 0;
    assert(events@.take(0) =~= Seq::<TraceEvent>::empty());
    while i < n
        invariant
            n == events@.len(),
            i <= n,
            f == listed(*filter, *scope, min_dur),
            p@ == positions(events@.take(i as int), f),
        decreases n - i,
    {
        let e = &events[i];
        assert(events@.take(i + 1).drop_last() =~= events@.take(i as int));
        if filter.matches(e.name.as_str()) && dur_or_zero(e) >= min_dur && scope.allows_event(e) {
            p.push(i);
        }
        i = i + 1;
    }
    assert(events@.take(n as int) =~= events@);
    p
}

pub open spec fn ts_keys(events: Seq<TraceEvent>, p: Seq<usize>) -> Seq<i128> {
    p.map_values(|i: usize| events[i as int].ts as i128)
}

pub open spec fn dur_keys(events: Seq<TraceEvent>, p: Seq<usize>) -> Seq<i128> {
    p.map_values(|i: usize| dur_of(events[i as int]) as i128)
}

pub open spec fn name_keys(events: Seq<TraceEvent>, p: Seq<usize>) -> Seq<(int, Seq<char>, int)> {
    p.map_values(|i: usize| (0int, events[i as int].name@, events[i as int].ts as int))
}

/// `q` holds the positions `p` by start, by duration (longest first), by name
/// and start, or as they were.
pub open spec fn sorted_events(events: Seq<TraceEvent>, p: Seq<usize>, sort: Sort, q: Seq<usize>) -> bool {
    match sort {
        Sort::Ts => exists|o: Seq<usize>| #[trigger]
            orders(ts_keys(events, p), false, o) && picks(p, o, q),
        Sort::Dur => exists|o: Seq<usize>| #[trigger]
            orders(dur_keys(events, p), true, o) && picks(p, o, q),
        Sort::Name => exists|o: Seq<usize>| #[trigger]
            sorts(name_keys(events, p), o) && picks(p, o, q),
        Sort::Count => q == p,
    }
}

/// The positions `p` by start.
pub fn sort_by_ts(events: &[TraceEvent], p: &Vec<usize>) -> (q: Vec<usize>)
    requires
        positions_in(p@, events@.len()),
    ensures
        sorted_events(events@, p@, Sort::Ts, q@),
        positions_in(q@, events@.len()),
        q@.len() == p@.len(),
{
    let mut keys: Vec<i128> = Vec::new();
    let mut i: usize = 0;
    while i < p.len()
        invariant
            i <= p@.len(),
            positions_in(p@, events@.len()),
            keys@.len() == i,
            forall|k: int| 0 <= k < i ==> #[trigger] keys@[k] == events@[p@[k] as int].ts,
        decreases p@.len() - i,
    {
        let at = p[i];
        assert(p@[i as int] < events@.len());
        keys.push(events[at].ts as i128);
        i = i + 1;
    }
    assert(keys@ =~= ts_keys(events@, p@));
    let o = order(&keys, false);
    let q = pick(p, &o);
    assert forall|k: int| 0 <= k < q@.len() implies (#[trigger] q@[k]) < events@.len() by {
        assert(p@[o@[k] as int] < events@.len());
    }
    q
}

/// The positions `p` by duration, longest first.
pub fn sort_by_dur(events: &[TraceEvent], p: &Vec<usize>) -> (q: Vec<usize>)
    requires
        positions_in(p@, events@.len()),
    ensures
        sorted_events(events@, p@, Sort::Dur, q@),
        positions_in(q@, events@.len()),
        q@.len() == p@.len(),
{
    let mut keys: Vec<i128> = Vec::new();
    let mut i: usize = 0;
    while i < p.len()
        invariant
            i <= p@.len(),
            positions_in(p@, events@.len()),
            keys@.len() == i,
            forall|k: int| 0 <= k < i ==> #[trigger] keys@[k] == dur_of(events@[p@[k] as int]),
        decreases p@.len() - i,
    {
        let at = p[i];
        assert(p@[i as int] < events@.len());
        keys.push(dur_or_zero(&events[at]) as i128);
        i = i + 1;
    }
    assert(keys@ =~= dur_keys(events@, p@));
    let o = order(&keys, true);
    let q = pick(p, &o);
    assert forall|k: int| 0 <= k < q@.len() implies (#[trigger] q@[k]) < events@.len() by {
        assert(p@[o@[k] as int] < events@.len());
    }
    q
}

fn sort_by_name(events: &[TraceEvent], p: &Vec<usize>) -> (q: Vec<usize>)
    requires
        positions_in(p@, events@.len()),
    ensures
        sorted_events(events@, p@, Sort::Name, q@),
        positions_in(q@, events@.len()),
        q@.len() == p@.len(),
{
    let mut keys: Vec<RowKey> = Vec::new();
    let mut i: usize = 0;
    while i < p.len()
        invariant
            i <= p@.len(),
            positions_in(p@, events@.len()),
            keys@.len() == i,
            forall|k: int| 0 <= k < i ==> (#[trigger] keys@[k])@ == name_keys(events@, p@)[k],
        decreases p@.len() - i,
    {
        let at = p[i];
        assert(p@[i as int] < events@.len());
        keys.push(RowKey { first: 0, text: events[at].name.clone(), last: events[at].ts as i128 });
        i = i + 1;
    }
    assert(row_keys(keys@) =~= name_keys(events@, p@));
    let o = sort_rows(&keys);
    let q = pick(p, &o);
    assert forall|k: int| 0 <= k < q@.len() implies (#[trigger] q@[k]) < events@.len() by {
        assert(p@[o@[k] as int] < events@.len());
    }
    q
}

/// The positions `p`, sorted.
pub fn sort_events(events: &[TraceEvent], p: Vec<usize>, sort: Sort) -> (q: Vec<usize>)
    requires
        positions_in(p@, events@.len()),
    ensures
        sorted_events(events@, p@, sort, q@),
        positions_in(q@, events@.len()),
        q@.len() == p@.len(),
{
    match sort {
        Sort::Ts => sort_by_ts(events, &p),
        Sort::Dur => sort_by_dur(events, &p),
        Sort::Name => sort_by_name(events, &p),
        Sort::Count => p,
    }
}

/// The text of an event's arguments: all of it, or the first 160 characters.
pub open spec fn args_shown(e: TraceEvent, full: bool) -> Seq<char> {
    match e@.said() {
        Some(v) => if full {
            compact(v)
        } else {
            shortened(compact(v), 160)
        },
        None => Seq::empty(),
    }
}

/// The text of an event's arguments, cut short unless all of it is asked for;
/// empty where there are none.
pub fn args_compact(e: &TraceEvent, full: bool) -> (r: String)
    ensures
        r@ == args_shown(*e, full),
{
    match e.args_value() {
        Some(v) => if full {
            compact_text(v)
        } else {
            truncate(compact_text(v).as_str(), 160)
        },
        None => String::new(),
    }
}

/// Row `i` of the list.
pub open spec fn event_row(e: TraceEvent, i: int, full: bool, min_ts: i64) -> Seq<PieceView> {
    seq![
        txt("| "@),
        txt(decimal((i + 1) as nat)),
        txt(" | "@),
        ms(e.ts - min_ts),
        txt(" | "@),
        ms(dur_of(e)),
        txt(" | "@),
        txt(e.name@),
        txt(" | "@),
        txt(decimal(e.tid as nat)),
        txt(" | "@),
        txt(decimal(e.pid as nat)),
        txt(" | "@),
        txt(args_shown(e, full)),
        txt(" |\n"@),
    ]
}

/// The first `n` rows of the list.
pub open spec fn event_rows(
    events: Seq<TraceEvent>,
    q: Seq<usize>,
    full: bool,
    min_ts: i64,
    n: int,
) -> Seq<PieceView>
    decreases n,
{
    if n <= 0 {
        Seq::empty()
    } else {
        event_rows(events, q, full, min_ts, n - 1) + event_row(
            events[q[n - 1] as int],
            n - 1,
            full,
            min_ts,
        )
    }
}

/// No more rows than `top`.
pub open spec fn shown_rows(top: usize, all: nat) -> int {
    if top < all {
        top as int
    } else {
        all as int
    }
}

/// The section that lists events.
pub open spec fn events_pieces(
    events: Seq<TraceEvent>,
    q: Seq<usize>,
    display: Seq<char>,
    window: Option<(i64, i64)>,
    full: bool,
    top: usize,
    min_ts: i64,
) -> Seq<PieceView> {
    seq![
        txt("## Events: "@),
        txt(display),
        txt(" ("@),
        txt(decimal(q.len())),
        txt(" matches, "@),
        txt(window_word(window)),
        txt(")\n\n"@),
    ] + window_block(window, min_ts) + if q.len() == 0 {
        seq![txt("No matching events.\n\n"@)]
    } else {
        seq![
            txt(
                "| # | t(ms) | dur(ms) | name | tid | pid | args |\n|---|-------|---------|------|-----|-----|------|\n"@,
            ),
        ] + event_rows(events, q, full, min_ts, shown_rows(top, q.len())) + more_pieces(
            top,
            q.len() as usize,
            " matches (use --top to see more)._\n"@,
        ) + seq![txt("\n"@)]
    }
}

#[verifier::rlimit(30)]
fn put_event_row(d: &mut Doc, e: &TraceEvent, k: usize, full: bool, min_ts: i64)
    requires
        k < usize::MAX,
    ensures
        doc_view(final(d)@) == doc_view(old(d)@) + event_row(*e, k as int, full, min_ts),
{
    let ghost before = doc_view(d@);
    put(d, "| ");
    put_u64(d, k as u64 + 1);
    put(d, " | ");
    put_num(d, make_ms(e.ts as i128 - min_ts as i128));
    put(d, " | ");
    put_num(d, make_ms(dur_or_zero(e) as i128));
    put(d, " | ");
    put(d, e.name.as_str());
    put(d, " | ");
    put_u64(d, e.tid);
    put(d, " | ");
    put_u64(d, e.pid);
    put(d, " | ");
    put(d, args_compact(e, full).as_str());
    put(d, " |\n");
    assert(doc_view(d@) =~= before + event_row(*e, k as int, full, min_ts));
}

fn put_event_rows(
    d: &mut Doc,
    events: &[TraceEvent],
    q: &Vec<usize>,
    full: bool,
    top: usize,
    min_ts: i64,
)
    requires
        positions_in(q@, events@.len()),
    ensures
        doc_view(final(d)@) == doc_view(old(d)@) + event_rows(
            events@,
            q@,
            full,
            min_ts,
            shown_rows(top, q@.len()),
        ),
{
    let n: usize = if top < q.len() {
        top
    } else {
        q.len()
    };
    let ghost before = doc_view(d@);
    let mut k: usize = 0;
    assert(before + event_rows(events@, q@, full, min_ts, 0) =~= before);
    while k < n
        invariant
            k <= n <= q@.len(),
            positions_in(q@, events@.len()),
            doc_view(d@) == before + event_rows(events@, q@, full, min_ts, k as int),
        decreases n - k,
    {
        let at = q[k];
        assert(q@[k as int] < events@.len());
        let e = &events[at];
        put_event_row(d, e, k, full, min_ts);
        assert(doc_view(d@) =~= before + event_rows(events@, q@, full, min_ts, k + 1));
        k = k + 1;
    }
}

/// List the events that the filter and the scope let through and that last
/// long enough: the section that tells them, and their positions.
#[verifier::rlimit(30)]
pub fn events_section(
    events: &[TraceEvent],
    filter: &NameFilter,
    display: &str,
    scope: &Scope,
    min_dur: i64,
    sort: Sort,
    full_args: bool,
    top: usize,
    min_ts: i64,
) -> (r: (Doc, Vec<usize>))
    ensures
        sorted_events(events@, positions(events@, listed(*filter, *scope, min_dur)), sort, r.1@),
        doc_view(r.0@) == events_pieces(
            events@,
            r.1@,
            display@,
            scope.window,
            full_args,
            top,
            min_ts,
        ),
{
    let p = select(events, filter, scope, min_dur);
    assert(events.len() <= usize::MAX);
    proof {
        lemma_positions(events@, listed(*filter, *scope, min_dur));
    }
    let q = sort_events(events, p, sort);
    let mut d: Doc = Vec::new();
    put(&mut d, "## Events: ");
    put(&mut d, display);
    put(&mut d, " (");
    put_u64(&mut d, q.len() as u64);
    put(&mut d, " matches, ");
    put(&mut d, window_label(scope.window));
    put(&mut d, ")\n\n");
    put_window_block(&mut d, scope.window, min_ts);
    if q.len() == 0 {
        put(&mut d, "No matching events.\n\n");
    } else {
        put(
            &mut d,
            "| # | t(ms) | dur(ms) | name | tid | pid | args |\n|---|-------|---------|------|-----|-----|------|\n",
        );
        put_event_rows(&mut d, events, &q, full_args, top, min_ts);
        put_more(&mut d, top, q.len(), " matches (use --top to see more)._\n");
        put(&mut d, "\n");
    }
    assert(doc_view(d@) =~= events_pieces(
        events@,
        q@,
        display@,
        scope.window,
        full_args,
        top,
        min_ts,
    ));
    (d, q)
}

} // verus!
