//! Events by name: counts, total durations and their distribution.

use vstd::prelude::*;
use crate::analysis::common::{dur_or_zero, find_percentile, percentile, total};
use crate::doc::{doc_view, make_ms, make_ratio, put, put_num, put_u64, Doc, PieceView};
use crate::inspect::events::{dur_keys, listed, select, shown_rows, Sort};
use crate::inspect::group::{
    dur_at,
    group_names,
    groups_of,
    lemma_named_in,
    lemma_named_some,
    lemma_positions,
    named_at,
    names_at,
    positions,
    positions_in,
    sum_durs,
    Group,
    DUR_SUM,
};
use crate::matcher::NameFilter;
use crate::render::{
    more_pieces,
    ms,
    put_more,
    put_window_block,
    txt,
    window_block,
    window_label,
    window_word,
};
use crate::scope::{allows, Scope};
use crate::sort::{order, orders, row_keys, sort_rows, sorts, RowKey};
use crate::text::decimal;
use crate::trace::event::TraceEvent;
use crate::windowed::frames::avg_ms;

verus! {

/// The time in events of a name.
pub open spec fn time_named(events: Seq<TraceEvent>, p: Seq<usize>, name: Seq<char>) -> int {
    total(named_at(events, p, name), dur_at(events))
}

/// Events of one name: how many, and how long together.
pub struct NameRow {
    pub name: String,
    pub count: usize,
    pub total: i128,
}

/// What the row of a name says.
pub open spec fn name_row(events: Seq<TraceEvent>, p: Seq<usize>, name: Seq<char>, r: NameRow) -> bool {
    &&& r.name@ == name
    &&& r.count == named_at(events, p, name).len()
    &&& r.total == time_named(events, p, name)
}

pub open spec fn count_keys(events: Seq<TraceEvent>, p: Seq<usize>) -> Seq<i128> {
    names_at(events, p).map_values(|n: Seq<char>| named_at(events, p, n).len() as i128)
}

pub open spec fn plain_keys(events: Seq<TraceEvent>, p: Seq<usize>) -> Seq<(int, Seq<char>, int)> {
    names_at(events, p).map_values(|n: Seq<char>| (0int, n, 0int))
}

pub open spec fn time_keys(events: Seq<TraceEvent>, p: Seq<usize>) -> Seq<(int, Seq<char>, int)> {
    names_at(events, p).map_values(|n: Seq<char>| (-time_named(events, p, n), n, 0int))
}

/// `o` orders the names by count, by name, or by time and name; the most first.
pub open spec fn name_order(events: Seq<TraceEvent>, p: Seq<usize>, sort: Sort, o: Seq<usize>) -> bool {
    match sort {
        Sort::Count => orders(count_keys(events, p), true, o),
        Sort::Name => sorts(plain_keys(events, p), o),
        _ => sorts(time_keys(events, p), o),
    }
}

/// One row per name of the events at `p`, sorted.
pub open spec fn rows_by_name(events: Seq<TraceEvent>, p: Seq<usize>, sort: Sort, rows: Seq<NameRow>) -> bool {
    exists|o: Seq<usize>|
        {
            &&& #[trigger] name_order(events, p, sort, o)
            &&& rows.len() == o.len()
            &&& forall|k: int|
                0 <= k < rows.len() ==> name_row(
                    events,
                    p,
                    names_at(events, p)[o[k] as int],
                    #[trigger] rows[k],
                )
        }
}

fn order_names(
    events: &[TraceEvent],
    Ghost(p): Ghost<Seq<usize>>,
    all: &Vec<NameRow>,
    sort: Sort,
) -> (o: Vec<usize>)
    requires
        all@.len() == names_at(events@, p).len(),
        forall|k: int|
            0 <= k < all@.len() ==> name_row(
                events@,
                p,
                names_at(events@, p)[k],
                #[trigger] all@[k],
            ),
        forall|k: int| 0 <= k < all@.len() ==> (#[trigger] all@[k]).total >= -DUR_SUM,
    ensures
        name_order(events@, p, sort, o@),
        o@.len() == all@.len(),
        forall|k: int| 0 <= k < o@.len() ==> (#[trigger] o@[k]) < all@.len(),
{
    let n = all.len();
    let mut k: usize = 0;
    match sort {
        Sort::Count => {
            let mut keys: Vec<i128> = Vec::new();
            while k < n
                invariant
                    k <= n,
                    n == all@.len(),
                    all@.len() == names_at(events@, p).len(),
                    forall|j: int|
                        0 <= j < all@.len() ==> name_row(
                            events@,
                            p,
                            names_at(events@, p)[j],
                            #[trigger] all@[j],
                        ),
                    keys@.len() == k,
                    forall|j: int| 0 <= j < k ==> #[trigger] keys@[j] == count_keys(events@, p)[j],
                decreases n - k,
            {
                assert(name_row(events@, p, names_at(events@, p)[k as int], all@[k as int]));
                keys.push(all[k].count as i128);
                k = k + 1;
            }
            assert(keys@ =~= count_keys(events@, p));
            order(&keys, true)
        },
        Sort::Name => {
            let mut keys: Vec<RowKey> = Vec::new();
            while k < n
                invariant
                    k <= n,
                    n == all@.len(),
                    all@.len() == names_at(events@, p).len(),
                    forall|j: int|
                        0 <= j < all@.len() ==> name_row(
                            events@,
                            p,
                            names_at(events@, p)[j],
                            #[trigger] all@[j],
                        ),
                    keys@.len() == k,
                    forall|j: int| 0 <= j < k ==> (#[trigger] keys@[j])@ == plain_keys(events@, p)[j],
                decreases n - k,
            {
                assert(name_row(events@, p, names_at(events@, p)[k as int], all@[k as int]));
                keys.push(RowKey { first: 0, text: all[k].name.clone(), last: 0 });
                k = k + 1;
            }
            assert(row_keys(keys@) =~= plain_keys(events@, p));
            sort_rows(&keys)
        },
        _ => {
            let mut keys: Vec<RowKey> = Vec::new();
            while k < n
                invariant
                    k <= n,
                    n == all@.len(),
                    all@.len() == names_at(events@, p).len(),
                    forall|j: int|
                        0 <= j < all@.len() ==> name_row(
                            events@,
                            p,
                            names_at(events@, p)[j],
                            #[trigger] all@[j],
                        ),
                    forall|j: int| 0 <= j < all@.len() ==> (#[trigger] all@[j]).total >= -DUR_SUM,
                    keys@.len() == k,
                    forall|j: int| 0 <= j < k ==> (#[trigger] keys@[j])@ == time_keys(events@, p)[j],
                decreases n - k,
            {
                assert(name_row(events@, p, names_at(events@, p)[k as int], all@[k as int]));
                keys.push(RowKey { first: -all[k].total, text: all[k].name.clone(), last: 0 });
                k = k + 1;
            }
            assert(row_keys(keys@) =~= time_keys(events@, p));
            sort_rows(&keys)
        },
    }
}

/// One row per name of the events at `p`, sorted.
pub fn list_names(events: &[TraceEvent], p: &Vec<usize>, sort: Sort) -> (rows: Vec<NameRow>)
    requires
        positions_in(p@, events@.len()),
    ensures
        rows_by_name(events@, p@, sort, rows@),
        forall|k: int|
            0 <= k < rows@.len() ==> -DUR_SUM <= (#[trigger] rows@[k]).total <= DUR_SUM
                && rows@[k].count > 0,
{
    let groups = group_names(events, p);
    let ghost names = names_at(events@, p@);
    let mut all: Vec<NameRow> = Vec::new();
    let mut k: usize = 0;
    while k < groups.len()
        invariant
            k <= groups@.len(),
            names == names_at(events@, p@),
            positions_in(p@, events@.len()),
            groups_of(events@, p@, groups@),
            all@.len() == k,
            forall|j: int| 0 <= j < k ==> name_row(events@, p@, names[j], #[trigger] all@[j]),
            forall|j: int|
                0 <= j < k ==> -DUR_SUM <= (#[trigger] all@[j]).total <= DUR_SUM && all@[j].count > 0,
        decreases groups@.len() - k,
    {
        let g = &groups[k];
        proof {
            assert(g.name@ == names[k as int]);
            lemma_named_in(events@, p@, names[k as int], events@.len());
            lemma_named_some(events@, p@, k as int);
        }
        all.push(
            NameRow {
                name: g.name.clone(),
                count: g.members.len(),
                total: sum_durs(events, &g.members),
            },
        );
        k = k + 1;
    }
    let o = order_names(events, Ghost(p@), &all, sort);
    let mut rows: Vec<NameRow> = Vec::new();
    let mut i: usize = 0;
    while i < o.len()
        invariant
            i <= o@.len(),
            all@.len() == names.len(),
            forall|j: int| 0 <= j < o@.len() ==> (#[trigger] o@[j]) < all@.len(),
            forall|j: int|
                0 <= j < all@.len() ==> name_row(events@, p@, names[j], #[trigger] all@[j]),
            forall|j: int|
                0 <= j < all@.len() ==> -DUR_SUM <= (#[trigger] all@[j]).total <= DUR_SUM
                    && all@[j].count > 0,
            rows@.len() == i,
            forall|j: int|
                0 <= j < i ==> name_row(events@, p@, names[o@[j] as int], #[trigger] rows@[j]),
            forall|j: int|
                0 <= j < i ==> -DUR_SUM <= (#[trigger] rows@[j]).total <= DUR_SUM && rows@[j].count
                    > 0,
        decreases o@.len() - i,
    {
        let at = o[i];
        let x = &all[at];
        assert(name_row(events@, p@, names[at as int], all@[at as int]));
        rows.push(NameRow { name: x.name.clone(), count: x.count, total: x.total });
        i = i + 1;
    }
    rows
}

/// The scope holds the event.
pub open spec fn in_scope(scope: Scope) -> spec_fn(TraceEvent) -> bool {
    |e: TraceEvent| allows(scope, e)
}

/// Positions of the events that the scope holds.
pub fn select_scope(events: &[TraceEvent], scope: &Scope) -> (p: Vec<usize>)
    ensures
        p@ == positions(events@, in_scope(*scope)),
        positions_in(p@, events@.len()),
{
    let n = events.len();
    let ghost f = in_scope(*scope);
    let mut p: Vec<usize> = Vec::new();
    let mut i: usize = 0;
    assert(events@.take(0) =~= Seq::<TraceEvent>::empty());
    while i < n
        invariant
            n == events@.len(),
            i <= n,
            f == in_scope(*scope),
            p@ == positions(events@.take(i as int), f),
            positions_in(p@, i as nat),
        decreases n - i,
    {
        let e = &events[i];
        assert(events@.take(i + 1).drop_last() =~= events@.take(i as int));
        if scope.allows_event(e) {
            p.push(i);
        }
        i = i + 1;
    }
    assert(events@.take(n as int) =~= events@);
    p
}

/// Row `i` of the table of names.
pub open spec fn name_row_pieces(r: NameRow, i: int) -> Seq<PieceView> {
    seq![
        txt("| "@),
        txt(decimal((i + 1) as nat)),
        txt(" | "@),
        txt(r.name@),
        txt(" | "@),
        txt(decimal(r.count as nat)),
        txt(" | "@),
        ms(r.total as int),
        txt(" | "@),
        avg_ms(r.total as int, r.count as int),
        txt(" |\n"@),
    ]
}

pub open spec fn name_rows_pieces(rows: Seq<NameRow>, n: int) -> Seq<PieceView>
    decreases n,
{
    if n <= 0 {
        Seq::empty()
    } else {
        name_rows_pieces(rows, n - 1) + name_row_pieces(rows[n - 1], n - 1)
    }
}

/// The section on event names.
pub open spec fn names_pieces(
    rows: Seq<NameRow>,
    window: Option<(i64, i64)>,
    top: usize,
    min_ts: i64,
) -> Seq<PieceView> {
    seq![
        txt("## Event names ("@),
        txt(decimal(rows.len())),
        txt(" distinct, "@),
        txt(window_word(window)),
        txt(")\n\n"@),
    ] + window_block(window, min_ts) + if rows.len() == 0 {
        seq![txt("No events.\n\n"@)]
    } else {
        seq![
            txt(
                "| # | name | count | total(ms) | avg(ms) |\n|---|------|-------|-----------|---------|\n"@,
            ),
        ] + name_rows_pieces(rows, shown_rows(top, rows.len())) + more_pieces(
            top,
            rows.len() as usize,
            " names (use --top to see more)._\n"@,
        ) + seq![txt("\n"@)]
    }
}

#[verifier::rlimit(30)]
fn put_name_row(d: &mut Doc, r: &NameRow, k: usize)
    requires
        k < usize::MAX,
    ensures
        doc_view(final(d)@) == doc_view(old(d)@) + name_row_pieces(*r, k as int),
{
    let ghost before = doc_view(d@);
    put(d, "| ");
    put_u64(d, k as u64 + 1);
    put(d, " | ");
    put(d, r.name.as_str());
    put(d, " | ");
    put_u64(d, r.count as u64);
    put(d, " | ");
    put_num(d, make_ms(r.total));
    put(d, " | ");
    put_num(d, make_ratio(r.total, r.count as i128 * 1_000_000, 1, 2, false));
    put(d, " |\n");
    assert(doc_view(d@) =~= before + name_row_pieces(*r, k as int));
}

fn put_name_rows(d: &mut Doc, rows: &Vec<NameRow>, top: usize)
    ensures
        doc_view(final(d)@) == doc_view(old(d)@) + name_rows_pieces(
            rows@,
            shown_rows(top, rows@.len()),
        ),
{
    let n: usize = if top < rows.len() {
        top
    } else {
        rows.len()
    };
    let ghost before = doc_view(d@);
    let mut k: usize = 0;
    assert(before + name_rows_pieces(rows@, 0) =~= before);
    while k < n
        invariant
            k <= n <= rows@.len(),
            doc_view(d@) == before + name_rows_pieces(rows@, k as int),
        decreases n - k,
    {
        let r = &rows[k];
        put_name_row(d, r, k);
        assert(doc_view(d@) =~= before + name_rows_pieces(rows@, k + 1));
        k = k + 1;
    }
}

/// The distinct event names of a scope with count and total duration, and the
/// section that tells them.
#[verifier::rlimit(30)]
pub fn names_section(events: &[TraceEvent], scope: &Scope, sort: Sort, top: usize, min_ts: i64) -> (r: (
    Doc,
    Vec<NameRow>,
))
    ensures
        rows_by_name(events@, positions(events@, in_scope(*scope)), sort, r.1@),
        doc_view(r.0@) == names_pieces(r.1@, scope.window, top, min_ts),
{
    let p = select_scope(events, scope);
    let rows = list_names(events, &p, sort);
    let mut d: Doc = Vec::new();
    put(&mut d, "## Event names (");
    put_u64(&mut d, rows.len() as u64);
    put(&mut d, " distinct, ");
    put(&mut d, window_label(scope.window));
    put(&mut d, ")\n\n");
    put_window_block(&mut d, scope.window, min_ts);
    if rows.len() == 0 {
        put(&mut d, "No events.\n\n");
    } else {
        put(
            &mut d,
            "| # | name | count | total(ms) | avg(ms) |\n|---|------|-------|-----------|---------|\n",
        );
        put_name_rows(&mut d, &rows, top);
        put_more(&mut d, top, rows.len(), " names (use --top to see more)._\n");
        put(&mut d, "\n");
    }
    assert(doc_view(d@) =~= names_pieces(rows@, scope.window, top, min_ts));
    (d, rows)
}

/// The durations of the events of one name.
pub struct StatRow {
    pub name: String,
    pub count: usize,
    pub total: i128,
    pub min: i128,
    pub p50: i128,
    pub p90: i128,
    pub p99: i128,
    pub max: i128,
}

/// What the row of a name says.
pub open spec fn stat_row(events: Seq<TraceEvent>, p: Seq<usize>, name: Seq<char>, r: StatRow) -> bool {
    let durs = dur_keys(events, named_at(events, p, name));
    &&& r.name@ == name
    &&& r.count == durs.len()
    &&& r.total == time_named(events, p, name)
    &&& percentile(durs, 0, r.min as int)
    &&& percentile(durs, 50, r.p50 as int)
    &&& percentile(durs, 90, r.p90 as int)
    &&& percentile(durs, 99, r.p99 as int)
    &&& percentile(durs, 100, r.max as int)
}

pub open spec fn total_keys(events: Seq<TraceEvent>, p: Seq<usize>) -> Seq<i128> {
    names_at(events, p).map_values(|n: Seq<char>| time_named(events, p, n) as i128)
}

/// One row per name of the events at `p`, the most time first.
pub open spec fn stat_rows(events: Seq<TraceEvent>, p: Seq<usize>, rows: Seq<StatRow>) -> bool {
    exists|o: Seq<usize>|
        {
            &&& #[trigger] orders(total_keys(events, p), true, o)
            &&& rows.len() == o.len()
            &&& forall|k: int|
                0 <= k < rows.len() ==> stat_row(
                    events,
                    p,
                    names_at(events, p)[o[k] as int],
                    #[trigger] rows[k],
                )
        }
}

fn describe(events: &[TraceEvent], Ghost(p): Ghost<Seq<usize>>, g: &Group, total: i128) -> (r: StatRow)
    requires
        positions_in(p, events@.len()),
        g.members@ == named_at(events@, p, g.name@),
        total == time_named(events@, p, g.name@),
    ensures
        stat_row(events@, p, g.name@, r),
{
    let mut durs: Vec<i128> = Vec::new();
    let mut i: usize = 0;
    proof {
        lemma_named_in(events@, p, g.name@, events@.len());
    }
    while i < g.members.len()
        invariant
            i <= g.members@.len(),
            positions_in(g.members@, events@.len()),
            durs@.len() == i,
            forall|k: int| 0 <= k < i ==> #[trigger] durs@[k] == dur_keys(events@, g.members@)[k],
        decreases g.members@.len() - i,
    {
        let at = g.members[i];
        assert(g.members@[i as int] < events@.len());
        durs.push(dur_or_zero(&events[at]) as i128);
        i = i + 1;
    }
    assert(durs@ =~= dur_keys(events@, g.members@));
    let o = order(&durs, false);
    StatRow {
        name: g.name.clone(),
        count: durs.len(),
        total,
        min: find_percentile(&durs, &o, 0),
        p50: find_percentile(&durs, &o, 50),
        p90: find_percentile(&durs, &o, 90),
        p99: find_percentile(&durs, &o, 99),
        max: find_percentile(&durs, &o, 100),
    }
}

/// One row per name of the events at `p`, the most time first.
pub fn list_stats(events: &[TraceEvent], p: &Vec<usize>) -> (rows: Vec<StatRow>)
    requires
        positions_in(p@, events@.len()),
    ensures
        stat_rows(events@, p@, rows@),
{
    let groups = group_names(events, p);
    let ghost names = names_at(events@, p@);
    let mut keys: Vec<i128> = Vec::new();
    let mut k: usize = 0;
    while k < groups.len()
        invariant
            k <= groups@.len(),
            names == names_at(events@, p@),
            positions_in(p@, events@.len()),
            groups_of(events@, p@, groups@),
            keys@.len() == k,
            forall|j: int| 0 <= j < k ==> #[trigger] keys@[j] == time_named(events@, p@, names[j]),
        decreases groups@.len() - k,
    {
        let g = &groups[k];
        proof {
            assert(g.name@ == names[k as int]);
            lemma_named_in(events@, p@, names[k as int], events@.len());
        }
        keys.push(sum_durs(events, &g.members));
        k = k + 1;
    }
    assert(keys@ =~= total_keys(events@, p@));
    let o = order(&keys, true);
    let mut rows: Vec<StatRow> = Vec::new();
    let mut i: usize = 0;
    while i < o.len()
        invariant
            i <= o@.len(),
            names == names_at(events@, p@),
            positions_in(p@, events@.len()),
            groups_of(events@, p@, groups@),
            keys@.len() == groups@.len(),
            orders(keys@, true, o@),
            forall|j: int|
                0 <= j < keys@.len() ==> #[trigger] keys@[j] == time_named(events@, p@, names[j]),
            rows@.len() == i,
            forall|j: int|
                0 <= j < i ==> stat_row(events@, p@, names[o@[j] as int], #[trigger] rows@[j]),
        decreases o@.len() - i,
    {
        let at = o[i];
        assert(groups@[at as int].name@ == names[at as int]);
        rows.push(describe(events, Ghost(p@), &groups[at], keys[at]));
        i = i + 1;
    }
    rows
}

pub open spec fn stat_row_pieces(r: StatRow) -> Seq<PieceView> {
    seq![
        txt("| "@),
        txt(r.name@),
        txt(" | "@),
        txt(decimal(r.count as nat)),
        txt(" | "@),
        ms(r.total as int),
        txt(" | "@),
        ms(r.min as int),
        txt(" | "@),
        avg_ms(r.total as int, r.count as int),
        txt(" | "@),
        ms(r.p50 as int),
        txt(" | "@),
        ms(r.p90 as int),
        txt(" | "@),
        ms(r.p99 as int),
        txt(" | "@),
        ms(r.max as int),
        txt(" |\n"@),
    ]
}

pub open spec fn stat_rows_pieces(rows: Seq<StatRow>, n: int) -> Seq<PieceView>
    decreases n,
{
    if n <= 0 {
        Seq::empty()
    } else {
        stat_rows_pieces(rows, n - 1) + stat_row_pieces(rows[n - 1])
    }
}

/// The section on durations.
pub open spec fn stats_pieces(
    rows: Seq<StatRow>,
    display: Seq<char>,
    window: Option<(i64, i64)>,
    min_ts: i64,
) -> Seq<PieceView> {
    seq![
        txt("## Duration stats: "@),
        txt(display),
        txt(" ("@),
        txt(decimal(rows.len())),
        txt(" names, "@),
        txt(window_word(window)),
        txt(")\n\n"@),
    ] + window_block(window, min_ts) + if rows.len() == 0 {
        seq![txt("No matching events.\n\n"@)]
    } else {
        seq![
            txt(
                "| name | count | total(ms) | min | avg | p50 | p90 | p99 | max |\n|------|-------|-----------|-----|-----|-----|-----|-----|-----|\n"@,
            ),
        ] + stat_rows_pieces(rows, rows.len() as int) + seq![txt("\n"@)]
    }
}

#[verifier::rlimit(30)]
fn put_stat_row(d: &mut Doc, r: &StatRow)
    ensures
        doc_view(final(d)@) == doc_view(old(d)@) + stat_row_pieces(*r),
{
    let ghost before = doc_view(d@);
    put(d, "| ");
    put(d, r.name.as_str());
    put(d, " | ");
    put_u64(d, r.count as u64);
    put(d, " | ");
    put_num(d, make_ms(r.total));
    put(d, " | ");
    put_num(d, make_ms(r.min));
    put(d, " | ");
    put_num(d, make_ratio(r.total, r.count as i128 * 1_000_000, 1, 2, false));
    put(d, " | ");
    put_num(d, make_ms(r.p50));
    put(d, " | ");
    put_num(d, make_ms(r.p90));
    put(d, " | ");
    put_num(d, make_ms(r.p99));
    put(d, " | ");
    put_num(d, make_ms(r.max));
    put(d, " |\n");
    assert(doc_view(d@) =~= before + stat_row_pieces(*r));
}

fn put_stat_rows(d: &mut Doc, rows: &Vec<StatRow>)
    ensures
        doc_view(final(d)@) == doc_view(old(d)@) + stat_rows_pieces(rows@, rows@.len() as int),
{
    let ghost before = doc_view(d@);
    let mut k: usize = 0;
    assert(before + stat_rows_pieces(rows@, 0) =~= before);
    while k < rows.len()
        invariant
            k <= rows@.len(),
            doc_view(d@) == before + stat_rows_pieces(rows@, k as int),
        decreases rows@.len() - k,
    {
        let r = &rows[k];
        put_stat_row(d, r);
        assert(doc_view(d@) =~= before + stat_rows_pieces(rows@, k + 1));
        k = k + 1;
    }
}

/// The durations of the events that the filter and the scope let through, by
/// name, and the section that tells them.
#[verifier::rlimit(30)]
pub fn stats_section(
    events: &[TraceEvent],
    filter: &NameFilter,
    display: &str,
    scope: &Scope,
    min_dur: i64,
    min_ts: i64,
) -> (r: (Doc, Vec<StatRow>))
    ensures
        stat_rows(events@, positions(events@, listed(*filter, *scope, min_dur)), r.1@),
        doc_view(r.0@) == stats_pieces(r.1@, display@, scope.window, min_ts),
{
    let p = select(events, filter, scope, min_dur);
    assert(events.len() <= usize::MAX);
    proof {
        lemma_positions(events@, listed(*filter, *scope, min_dur));
    }
    let rows = list_stats(events, &p);
    let mut d: Doc = Vec::new();
    put(&mut d, "## Duration stats: ");
    put(&mut d, display);
    put(&mut d, " (");
    put_u64(&mut d, rows.len() as u64);
    put(&mut d, " names, ");
    put(&mut d, window_label(scope.window));
    put(&mut d, ")\n\n");
    put_window_block(&mut d, scope.window, min_ts);
    if rows.len() == 0 {
        put(&mut d, "No matching events.\n\n");
    } else {
        put(
            &mut d,
            "| name | count | total(ms) | min | avg | p50 | p90 | p99 | max |\n|------|-------|-----------|-----|-----|-----|-----|-----|-----|\n",
        );
        put_stat_rows(&mut d, &rows);
        put(&mut d, "\n");
    }
    assert(doc_view(d@) =~= stats_pieces(rows@, display@, scope.window, min_ts));
    (d, rows)
}

} // verus!
