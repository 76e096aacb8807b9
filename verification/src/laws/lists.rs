//! What the lists of names, durations, threads and events hold of the events
//! that a scope holds.

use vstd::prelude::*;
use crate::analysis::common::{percentile, percentile_index, total};
use crate::inspect::events::{dur_keys, listed, name_keys, sorted_events, ts_keys, Sort};
use crate::inspect::group::{
    dur_at,
    lemma_named_some,
    lemma_names_distinct,
    named_at,
    names_at,
    positions,
};
use crate::inspect::names::{
    count_keys,
    name_order,
    name_row,
    plain_keys,
    rows_by_name,
    stat_row,
    stat_rows,
    time_keys,
    total_keys,
    NameRow,
    StatRow,
};
use crate::laws::gc::in_scope;
use crate::laws::sums::{lemma_total_order, lemma_total_places, lemma_total_same};
use crate::matcher::{filter_passes, NameFilter};
use crate::scope::Scope;
use crate::sort::{comes_before, holds, orders, picks, row_before, sorts};
use crate::text::text_less;
use crate::trace::event::TraceEvent;

verus! {

/// How long an event lasts: nothing, where it does not say.
pub open spec fn lasted(e: TraceEvent) -> int {
    match e.dur {
        Some(d) => d as int,
        None => 0,
    }
}

/// How many events are of a kind.
pub open spec fn count_of(events: Seq<TraceEvent>, kind: spec_fn(TraceEvent) -> bool) -> int {
    total(
        events,
        |e: TraceEvent|
            if kind(e) {
                1
            } else {
                0
            },
    )
}

/// How long the events of a kind last together.
pub open spec fn time_of(events: Seq<TraceEvent>, kind: spec_fn(TraceEvent) -> bool) -> int {
    total(
        events,
        |e: TraceEvent|
            if kind(e) {
                lasted(e)
            } else {
                0
            },
    )
}

/// The events of a kind that have a name.
pub open spec fn named(kind: spec_fn(TraceEvent) -> bool, name: Seq<char>) -> spec_fn(TraceEvent) -> bool {
    |e: TraceEvent| kind(e) && e.name@ == name
}

/// The places of the events of a kind, in their order, none left out.
pub open spec fn lists_all(events: Seq<TraceEvent>, p: Seq<usize>, kind: spec_fn(TraceEvent) -> bool) -> bool {
    &&& forall|i: int| 0 <= i < p.len() ==> (#[trigger] p[i]) < events.len() && kind(events[p[i] as int])
    &&& forall|i: int, j: int| 0 <= i < j < p.len() ==> (#[trigger] p[i]) < (#[trigger] p[j])
    &&& forall|x: int| 0 <= x < events.len() && kind(#[trigger] events[x]) ==> holds(p, x)
}

pub proof fn lemma_positions_all(events: Seq<TraceEvent>, f: spec_fn(TraceEvent) -> bool)
    requires
        events.len() <= usize::MAX,
    ensures
        lists_all(events, positions(events, f), f),
    decreases events.len(),
{
    if events.len() > 0 {
        let t = events.drop_last();
        let before = positions(t, f);
        let p = positions(events, f);
        lemma_positions_all(t, f);
        assert forall|i: int| 0 <= i < p.len() implies (#[trigger] p[i]) < events.len() && f(
            events[p[i] as int],
        ) by {
            if i < before.len() {
                assert(p[i] == before[i]);
                assert(t[before[i] as int] == events[p[i] as int]);
            }
        }
        assert forall|i: int, j: int| 0 <= i < j < p.len() implies (#[trigger] p[i]) < (#[trigger] p[j]) by {
            assert(p[i] == before[i]);
            if j < before.len() {
                assert(p[j] == before[j]);
            }
        }
        assert forall|x: int| 0 <= x < events.len() && f(#[trigger] events[x]) implies holds(p, x) by {
            if x < t.len() {
                assert(t[x] == events[x]);
                assert(holds(before, x));
                let w = choose|w: int| 0 <= w < before.len() && #[trigger] before[w] == x;
                assert(p[w] == x);
            } else {
                assert(p[before.len() as int] == x);
            }
        }
    }
}

/// What holds of the places of a list that are picked by a property of their
/// events.
pub open spec fn picked(
    events: Seq<TraceEvent>,
    p: Seq<usize>,
    part: Seq<usize>,
    kind: spec_fn(TraceEvent) -> bool,
) -> bool {
    &&& forall|i: int|
        0 <= i < part.len() ==> holds(p, #[trigger] part[i] as int) && kind(events[part[i] as int])
    &&& forall|i: int, j: int| 0 <= i < j < part.len() ==> (#[trigger] part[i]) < (#[trigger] part[j])
    &&& forall|i: int| 0 <= i < p.len() && kind(events[#[trigger] p[i] as int]) ==> holds(part, p[i] as int)
}

pub proof fn lemma_picked_push(
    events: Seq<TraceEvent>,
    p: Seq<usize>,
    before: Seq<usize>,
    kind: spec_fn(TraceEvent) -> bool,
)
    requires
        p.len() > 0,
        forall|i: int, j: int| 0 <= i < j < p.len() ==> (#[trigger] p[i]) < (#[trigger] p[j]),
        picked(events, p.drop_last(), before, kind),
    ensures
        picked(
            events,
            p,
            if kind(events[p.last() as int]) {
                before.push(p.last())
            } else {
                before
            },
            kind,
        ),
{
    let t = p.drop_last();
    let part = if kind(events[p.last() as int]) {
        before.push(p.last())
    } else {
        before
    };
    assert forall|i: int| 0 <= i < part.len() implies holds(p, #[trigger] part[i] as int) && kind(
        events[part[i] as int],
    ) by {
        if i < before.len() {
            assert(part[i] == before[i]);
            let w = choose|w: int| 0 <= w < t.len() && #[trigger] t[w] == before[i];
            assert(p[w] == part[i]);
        } else {
            assert(p[p.len() - 1] == part[i]);
        }
    }
    assert forall|i: int, j: int| 0 <= i < j < part.len() implies (#[trigger] part[i]) < (#[trigger] part[j]) by {
        assert(part[i] == before[i]);
        if j < before.len() {
            assert(part[j] == before[j]);
        } else {
            let w = choose|w: int| 0 <= w < t.len() && #[trigger] t[w] == before[i];
            assert(p[w] < p[p.len() - 1]);
        }
    }
    assert forall|i: int| 0 <= i < p.len() && kind(events[#[trigger] p[i] as int]) implies holds(
        part,
        p[i] as int,
    ) by {
        if i < t.len() {
            assert(t[i] == p[i]);
            assert(holds(before, t[i] as int));
            let w = choose|w: int| 0 <= w < before.len() && #[trigger] before[w] == t[i];
            assert(part[w] == p[i]);
        } else {
            assert(part[before.len() as int] == p[i]);
        }
    }
}

pub proof fn lemma_picked_all(
    events: Seq<TraceEvent>,
    p: Seq<usize>,
    part: Seq<usize>,
    f: spec_fn(TraceEvent) -> bool,
    kind: spec_fn(TraceEvent) -> bool,
    both: spec_fn(TraceEvent) -> bool,
)
    requires
        lists_all(events, p, f),
        picked(events, p, part, kind),
        forall|e: TraceEvent| #[trigger] both(e) <==> f(e) && kind(e),
    ensures
        lists_all(events, part, both),
{
    assert forall|i: int| 0 <= i < part.len() implies (#[trigger] part[i]) < events.len() && both(
        events[part[i] as int],
    ) by {
        let w = choose|w: int| 0 <= w < p.len() && #[trigger] p[w] == part[i];
        assert(f(events[p[w] as int]));
    }
    assert forall|x: int| 0 <= x < events.len() && both(#[trigger] events[x]) implies holds(part, x) by {
        assert(f(events[x]));
        assert(holds(p, x));
        let w = choose|w: int| 0 <= w < p.len() && #[trigger] p[w] == x;
        assert(kind(events[p[w] as int]));
    }
}

proof fn lemma_named_picked(events: Seq<TraceEvent>, p: Seq<usize>, name: Seq<char>)
    requires
        forall|i: int, j: int| 0 <= i < j < p.len() ==> (#[trigger] p[i]) < (#[trigger] p[j]),
    ensures
        picked(events, p, named_at(events, p, name), |e: TraceEvent| e.name@ == name),
    decreases p.len(),
{
    if p.len() > 0 {
        let t = p.drop_last();
        assert forall|i: int, j: int| 0 <= i < j < t.len() implies (#[trigger] t[i]) < (#[trigger] t[j]) by {
            assert(p[i] < p[j]);
        }
        lemma_named_picked(events, t, name);
        lemma_picked_push(events, p, named_at(events, t, name), |e: TraceEvent| e.name@ == name);
    }
}

proof fn lemma_ones<T>(p: Seq<T>)
    ensures
        total(p, |x: T| 1int) == p.len(),
    decreases p.len(),
{
    if p.len() > 0 {
        lemma_ones(p.drop_last());
    }
}

/// The figures of a full list of places are those of the events.
pub proof fn lemma_all_sums(events: Seq<TraceEvent>, p: Seq<usize>, kind: spec_fn(TraceEvent) -> bool)
    requires
        lists_all(events, p, kind),
    ensures
        p.len() == count_of(events, kind),
        total(p, dur_at(events)) == time_of(events, kind),
{
    assert forall|i: int, j: int| 0 <= i < j < p.len() implies (#[trigger] p[i]) != (#[trigger] p[j]) by {}
    lemma_ones(p);
    lemma_total_places(
        events,
        p,
        kind,
        |x: usize| 1int,
        |e: TraceEvent|
            if kind(e) {
                1
            } else {
                0
            },
    );
    lemma_total_places(
        events,
        p,
        kind,
        dur_at(events),
        |e: TraceEvent|
            if kind(e) {
                lasted(e)
            } else {
                0
            },
    );
}

/// The figures of the events of one name.
pub proof fn lemma_named_sums(
    events: Seq<TraceEvent>,
    p: Seq<usize>,
    f: spec_fn(TraceEvent) -> bool,
    name: Seq<char>,
)
    requires
        lists_all(events, p, f),
    ensures
        lists_all(events, named_at(events, p, name), named(f, name)),
        named_at(events, p, name).len() == count_of(events, named(f, name)),
        total(named_at(events, p, name), dur_at(events)) == time_of(
            events,
            named(f, name),
        ),
{
    let kind = |e: TraceEvent| e.name@ == name;
    let both = named(f, name);
    lemma_named_picked(events, p, name);
    lemma_picked_all(events, p, named_at(events, p, name), f, kind, both);
    assert(lists_all(events, named_at(events, p, name), both));
    lemma_all_sums(events, named_at(events, p, name), both);
}

pub proof fn lemma_names_all(events: Seq<TraceEvent>, p: Seq<usize>)
    ensures
        forall|i: int| 0 <= i < p.len() ==> names_at(events, p).contains(events[#[trigger] p[i] as int].name@),
    decreases p.len(),
{
    if p.len() > 0 {
        let t = p.drop_last();
        let before = names_at(events, t);
        let names = names_at(events, p);
        lemma_names_all(events, t);
        assert forall|i: int| 0 <= i < p.len() implies names.contains(events[#[trigger] p[i] as int].name@) by {
            if i < t.len() {
                assert(t[i] == p[i]);
                assert(before.contains(events[t[i] as int].name@));
                let w = choose|w: int| 0 <= w < before.len() && before[w] == events[t[i] as int].name@;
                assert(names[w] == before[w]);
            } else if !before.contains(events[p.last() as int].name@) {
                assert(names[before.len() as int] == events[p[i] as int].name@);
            }
        }
    }
}

/// A list of names: every event of the kind has a row, no two rows have the
/// same name, and a row tells how many events of the kind have its name and how
/// long they last together.
pub open spec fn names_right(
    events: Seq<TraceEvent>,
    kind: spec_fn(TraceEvent) -> bool,
    rows: Seq<NameRow>,
) -> bool {
    &&& forall|x: int|
        0 <= x < events.len() && kind(#[trigger] events[x]) ==> exists|k: int|
            0 <= k < rows.len() && (#[trigger] rows[k]).name@ == events[x].name@
    &&& forall|i: int, j: int| 0 <= i < j < rows.len() ==> (#[trigger] rows[i]).name@ != (#[trigger] rows[j]).name@
    &&& forall|k: int|
        0 <= k < rows.len() ==> (#[trigger] rows[k]).count > 0 && rows[k].count == count_of(
            events,
            named(kind, rows[k].name@),
        ) && rows[k].total == time_of(events, named(kind, rows[k].name@))
}

pub proof fn lemma_rows_right(
    events: Seq<TraceEvent>,
    p: Seq<usize>,
    kind: spec_fn(TraceEvent) -> bool,
    sort: Sort,
    rows: Seq<NameRow>,
)
    requires
        events.len() <= usize::MAX,
        lists_all(events, p, kind),
        rows_by_name(events, p, sort, rows),
    ensures
        names_right(events, kind, rows),
{
    let names = names_at(events, p);
    let o = choose|o: Seq<usize>|
        {
            &&& #[trigger] name_order(events, p, sort, o)
            &&& rows.len() == o.len()
            &&& forall|k: int|
                0 <= k < rows.len() ==> name_row(
                    events,
                    p,
                    names_at(events, p)[o[k] as int],
                    #[trigger] rows[k],
                )
        };
    assert(o.len() == names.len());
    assert(forall|i: int| 0 <= i < o.len() ==> 0 <= #[trigger] o[i] < names.len());
    assert(forall|x: int| 0 <= x < names.len() ==> #[trigger] holds(o, x));
    lemma_names_distinct(events, p);
    lemma_names_all(events, p);
    assert forall|x: int| 0 <= x < events.len() && kind(#[trigger] events[x]) implies exists|k: int|
        0 <= k < rows.len() && (#[trigger] rows[k]).name@ == events[x].name@ by {
        assert(holds(p, x));
        let w = choose|w: int| 0 <= w < p.len() && #[trigger] p[w] == x;
        assert(names.contains(events[p[w] as int].name@));
        let n = choose|n: int| 0 <= n < names.len() && names[n] == events[x].name@;
        assert(holds(o, n));
        let k = choose|k: int| 0 <= k < o.len() && #[trigger] o[k] == n;
        assert(rows[k].name@ == events[x].name@);
    }
    assert forall|i: int, j: int| 0 <= i < j < rows.len() implies (#[trigger] rows[i]).name@ != (
    #[trigger] rows[j]).name@ by {
        assert(o[i] != o[j]) by {
            match sort {
                Sort::Count => {
                    assert(comes_before(count_keys(events, p), true, o[i] as int, o[j] as int));
                },
                Sort::Name => {
                    assert(row_before(plain_keys(events, p), o[i] as int, o[j] as int));
                },
                _ => {
                    assert(row_before(time_keys(events, p), o[i] as int, o[j] as int));
                },
            }
        }
        assert(names[o[i] as int] != names[o[j] as int]);
    }
    assert forall|k: int| 0 <= k < rows.len() implies (#[trigger] rows[k]).count > 0 && rows[k].count
        == count_of(events, named(kind, rows[k].name@)) && rows[k].total == time_of(
        events,
        named(kind, rows[k].name@),
    ) by {
        assert(rows[k].name@ == names[o[k] as int]);
        lemma_named_sums(events, p, kind, rows[k].name@);
        lemma_named_some(events, p, o[k] as int);
    }
}

/// The list of names of a scope: every name that an event in it has, once, with
/// the number of those events and how long they last. By count the largest come
/// first, by name the names ascend, and else those with the most time come
/// first.
pub proof fn lemma_names(events: Seq<TraceEvent>, scope: Scope, sort: Sort, rows: Seq<NameRow>)
    requires
        events.len() <= usize::MAX,
        rows_by_name(events, positions(events, crate::inspect::names::in_scope(scope)), sort, rows),
    ensures
        names_right(events, |e: TraceEvent| in_scope(scope, e), rows),
        forall|i: int, j: int|
            0 <= i < j < rows.len() ==> match sort {
                Sort::Count => (#[trigger] rows[i]).count >= (#[trigger] rows[j]).count,
                Sort::Name => text_less(rows[i].name@, rows[j].name@),
                _ => rows[i].total >= rows[j].total,
            },
{
    let p = positions(events, crate::inspect::names::in_scope(scope));
    let kind = |e: TraceEvent| in_scope(scope, e);
    lemma_positions_all(events, crate::inspect::names::in_scope(scope));
    assert(lists_all(events, p, kind));
    lemma_rows_right(events, p, kind, sort, rows);
    let o = choose|o: Seq<usize>|
        {
            &&& #[trigger] name_order(events, p, sort, o)
            &&& rows.len() == o.len()
            &&& forall|k: int|
                0 <= k < rows.len() ==> name_row(
                    events,
                    p,
                    names_at(events, p)[o[k] as int],
                    #[trigger] rows[k],
                )
        };
    let names = names_at(events, p);
    assert forall|i: int, j: int| 0 <= i < j < rows.len() implies match sort {
        Sort::Count => (#[trigger] rows[i]).count >= (#[trigger] rows[j]).count,
        Sort::Name => text_less(rows[i].name@, rows[j].name@),
        _ => rows[i].total >= rows[j].total,
    } by {
        assert(rows[i].name@ != rows[j].name@);
        match sort {
            Sort::Count => {
                assert(comes_before(count_keys(events, p), true, o[i] as int, o[j] as int));
            },
            Sort::Name => {
                assert(row_before(plain_keys(events, p), o[i] as int, o[j] as int));
            },
            _ => {
                assert(row_before(time_keys(events, p), o[i] as int, o[j] as int));
            },
        }
    }
}

/// How many of the durations are less than `v`.
pub open spec fn below(durs: Seq<i128>, v: int) -> int {
    total(
        durs,
        |d: i128|
            if d < v {
                1
            } else {
                0
            },
    )
}

/// How many of the durations are `v` at most.
pub open spec fn up_to(durs: Seq<i128>, v: int) -> int {
    total(
        durs,
        |d: i128|
            if d <= v {
                1
            } else {
                0
            },
    )
}

proof fn lemma_first_ones(s: Seq<i128>, f: spec_fn(i128) -> int, n: int)
    requires
        0 <= n <= s.len(),
        forall|d: i128| 0 <= #[trigger] f(d) <= 1,
    ensures
        (forall|i: int| n <= i < s.len() ==> f(#[trigger] s[i]) == 0) ==> total(s, f) <= n,
        (forall|i: int| 0 <= i < n ==> f(#[trigger] s[i]) == 1) ==> total(s, f) >= n,
    decreases s.len(),
{
    if s.len() > 0 {
        let t = s.drop_last();
        let m = if n < s.len() {
            n
        } else {
            n - 1
        };
        lemma_first_ones(t, f, m);
        assert(s.last() == s[s.len() - 1]);
        if forall|i: int| n <= i < s.len() ==> f(#[trigger] s[i]) == 0 {
            assert forall|i: int| m <= i < t.len() implies f(#[trigger] t[i]) == 0 by {
                assert(t[i] == s[i]);
            }
        }
        if forall|i: int| 0 <= i < n ==> f(#[trigger] s[i]) == 1 {
            assert forall|i: int| 0 <= i < m implies f(#[trigger] t[i]) == 1 by {
                assert(t[i] == s[i]);
            }
        }
    }
}

/// A percentile is one of the durations, and its rank among them is the wanted
/// share of the way from the first to the last, to the nearest.
pub proof fn lemma_percentile_rank(durs: Seq<i128>, pct: int, v: int, rank: int)
    requires
        durs.len() > 0,
        0 <= pct <= 100,
        percentile(durs, pct, v),
        100 * rank <= pct * (durs.len() - 1) + 50 < 100 * rank + 100,
    ensures
        exists|i: int| 0 <= i < durs.len() && #[trigger] durs[i] == v,
        below(durs, v) <= rank < up_to(durs, v),
{
    let n = durs.len() as int;
    let k = percentile_index(n, pct);
    assert(k == rank);
    assert(0 <= pct * (n - 1) <= 100 * (n - 1)) by (nonlinear_arith)
        requires
            0 <= pct <= 100,
            n >= 1,
    ;
    assert(0 <= k < n);
    let p = choose|p: Seq<usize>| #[trigger]
        orders(durs, false, p) && v == durs[p[percentile_index(durs.len() as int, pct)] as int];
    let sorted = Seq::new(p.len(), |i: int| durs[p[i] as int]);
    let under = |d: i128|
        if d < v {
            1int
        } else {
            0
        };
    let most = |d: i128|
        if d <= v {
            1int
        } else {
            0
        };
    assert forall|i: int, j: int| 0 <= i < j < p.len() implies (#[trigger] p[i]) != (#[trigger] p[j]) by {
        assert(comes_before(durs, false, p[i] as int, p[j] as int));
    }
    lemma_total_order(durs, sorted, p, under);
    lemma_total_order(durs, sorted, p, most);
    assert forall|i: int| k <= i < sorted.len() implies under(#[trigger] sorted[i]) == 0 by {
        if i > k {
            assert(comes_before(durs, false, p[k] as int, p[i] as int));
        }
    }
    assert forall|i: int| 0 <= i < k + 1 implies most(#[trigger] sorted[i]) == 1 by {
        if i < k {
            assert(comes_before(durs, false, p[i] as int, p[k] as int));
        }
    }
    lemma_first_ones(sorted, under, k);
    lemma_first_ones(sorted, most, k + 1);
    lemma_total_same(
        durs,
        under,
        |d: i128|
            if d < v {
                1
            } else {
                0
            },
    );
    lemma_total_same(
        durs,
        most,
        |d: i128|
            if d <= v {
                1
            } else {
                0
            },
    );
    assert(durs[p[k] as int] == v);
}

/// The first and the last of the durations are the least and the largest.
pub proof fn lemma_ends(durs: Seq<i128>, least: int, most: int)
    requires
        percentile(durs, 0, least),
        percentile(durs, 100, most),
    ensures
        forall|i: int| 0 <= i < durs.len() ==> least <= #[trigger] durs[i] <= most,
{
    let n = durs.len() as int;
    if n > 0 {
        let p = choose|p: Seq<usize>| #[trigger]
            orders(durs, false, p) && least == durs[p[percentile_index(durs.len() as int, 0)] as int];
        let q = choose|q: Seq<usize>| #[trigger]
            orders(durs, false, q) && most == durs[q[percentile_index(durs.len() as int, 100)] as int];
        assert(percentile_index(n, 0) == 0);
        assert(percentile_index(n, 100) == n - 1);
        assert forall|i: int| 0 <= i < durs.len() implies least <= #[trigger] durs[i] <= most by {
            assert(holds(p, i) && holds(q, i));
            let a = choose|a: int| 0 <= a < p.len() && #[trigger] p[a] == i;
            let b = choose|b: int| 0 <= b < q.len() && #[trigger] q[b] == i;
            if a > 0 {
                assert(comes_before(durs, false, p[0] as int, p[a] as int));
            }
            if b < n - 1 {
                assert(comes_before(durs, false, q[b] as int, q[n - 1] as int));
            }
        }
    }
}

/// An event that is asked for: its name passes, it lasts long enough and it is
/// in scope.
pub open spec fn asked(filter: NameFilter, scope: Scope, min_dur: i64, e: TraceEvent) -> bool {
    filter_passes(filter, e.name@) && lasted(e) >= min_dur && in_scope(scope, e)
}

/// The durations of the events at the places.
pub open spec fn durations(events: Seq<TraceEvent>, p: Seq<usize>) -> Seq<i128> {
    Seq::new(p.len(), |i: int| lasted(events[p[i] as int]) as i128)
}

/// What a row on the durations of a name tells: of all the events of the kind
/// with that name how many there are, how long they last together, the least
/// and the largest duration, and three percentiles.
pub open spec fn stat_right(events: Seq<TraceEvent>, kind: spec_fn(TraceEvent) -> bool, r: StatRow) -> bool {
    exists|part: Seq<usize>|
        {
            &&& #[trigger] lists_all(events, part, named(kind, r.name@))
            &&& r.count == part.len() && r.count > 0
            &&& r.total == time_of(events, named(kind, r.name@))
            &&& forall|i: int|
                0 <= i < part.len() ==> r.min <= lasted(events[#[trigger] part[i] as int]) <= r.max
            &&& percentile(durations(events, part), 50, r.p50 as int)
            &&& percentile(durations(events, part), 90, r.p90 as int)
            &&& percentile(durations(events, part), 99, r.p99 as int)
        }
}

/// The list of durations: every name that an event asked for has, once, those
/// with the most time first.
pub proof fn lemma_stats(
    events: Seq<TraceEvent>,
    filter: NameFilter,
    scope: Scope,
    min_dur: i64,
    rows: Seq<StatRow>,
)
    requires
        events.len() <= usize::MAX,
        stat_rows(events, positions(events, listed(filter, scope, min_dur)), rows),
    ensures
        forall|k: int|
            0 <= k < rows.len() ==> stat_right(
                events,
                |e: TraceEvent| asked(filter, scope, min_dur, e),
                #[trigger] rows[k],
            ),
        forall|x: int|
            0 <= x < events.len() && asked(filter, scope, min_dur, #[trigger] events[x]) ==> exists|k: int|
                0 <= k < rows.len() && (#[trigger] rows[k]).name@ == events[x].name@,
        forall|i: int, j: int|
            0 <= i < j < rows.len() ==> (#[trigger] rows[i]).name@ != (#[trigger] rows[j]).name@
                && rows[i].total >= rows[j].total,
{
    let f = listed(filter, scope, min_dur);
    let kind = |e: TraceEvent| asked(filter, scope, min_dur, e);
    let p = positions(events, f);
    let names = names_at(events, p);
    lemma_positions_all(events, f);
    assert(lists_all(events, p, kind));
    let o = choose|o: Seq<usize>|
        {
            &&& #[trigger] orders(total_keys(events, p), true, o)
            &&& rows.len() == o.len()
            &&& forall|k: int|
                0 <= k < rows.len() ==> stat_row(
                    events,
                    p,
                    names_at(events, p)[o[k] as int],
                    #[trigger] rows[k],
                )
        };
    lemma_names_distinct(events, p);
    lemma_names_all(events, p);
    assert forall|k: int| 0 <= k < rows.len() implies stat_right(events, kind, #[trigger] rows[k]) by {
        let r = rows[k];
        assert(r.name@ == names[o[k] as int]);
        let part = named_at(events, p, r.name@);
        lemma_named_sums(events, p, kind, r.name@);
        lemma_named_some(events, p, o[k] as int);
        let durs = dur_keys(events, part);
        assert(durs =~= durations(events, part));
        lemma_ends(durs, r.min as int, r.max as int);
        assert forall|i: int| 0 <= i < part.len() implies r.min <= lasted(events[#[trigger] part[i] as int])
            <= r.max by {
            assert(r.min <= durs[i] <= r.max);
        }
        assert(lists_all(events, part, named(kind, r.name@)));
    }
    assert forall|x: int| 0 <= x < events.len() && asked(filter, scope, min_dur, #[trigger] events[x]) implies exists|
        k: int,
    | 0 <= k < rows.len() && (#[trigger] rows[k]).name@ == events[x].name@ by {
        assert(kind(events[x]));
        assert(holds(p, x));
        let w = choose|w: int| 0 <= w < p.len() && #[trigger] p[w] == x;
        assert(names.contains(events[p[w] as int].name@));
        let n = choose|n: int| 0 <= n < names.len() && names[n] == events[x].name@;
        assert(holds(o, n));
        let k = choose|k: int| 0 <= k < o.len() && #[trigger] o[k] == n;
        assert(rows[k].name@ == events[x].name@);
    }
    assert forall|i: int, j: int| 0 <= i < j < rows.len() implies (#[trigger] rows[i]).name@ != (
    #[trigger] rows[j]).name@ && rows[i].total >= rows[j].total by {
        let keys = total_keys(events, p);
        assert(comes_before(keys, true, o[i] as int, o[j] as int));
        assert(names[o[i] as int] != names[o[j] as int]);
        assert(keys[o[i] as int] == rows[i].total);
        assert(keys[o[j] as int] == rows[j].total);
    }
}

/// The list of events: exactly those asked for, each once. By time the earliest
/// come first, by duration the longest, by name the names ascend, and by count
/// they stay as they stand in the trace.
pub proof fn lemma_events(
    events: Seq<TraceEvent>,
    filter: NameFilter,
    scope: Scope,
    min_dur: i64,
    sort: Sort,
    q: Seq<usize>,
)
    requires
        events.len() <= usize::MAX,
        sorted_events(events, positions(events, listed(filter, scope, min_dur)), sort, q),
    ensures
        events_right(events, |e: TraceEvent| asked(filter, scope, min_dur, e), q),
        forall|i: int, j: int|
            0 <= i < j < q.len() ==> event_before(
                events,
                sort,
                #[trigger] q[i] as int,
                #[trigger] q[j] as int,
            ),
{
    let f = listed(filter, scope, min_dur);
    let kind = |e: TraceEvent| asked(filter, scope, min_dur, e);
    lemma_positions_all(events, f);
    assert(lists_all(events, positions(events, f), kind));
    lemma_sorted(events, positions(events, f), kind, sort, q);
}

/// Exactly the events of a kind, each once.
pub open spec fn events_right(events: Seq<TraceEvent>, kind: spec_fn(TraceEvent) -> bool, q: Seq<usize>) -> bool {
    &&& forall|i: int| 0 <= i < q.len() ==> (#[trigger] q[i]) < events.len() && kind(events[q[i] as int])
    &&& forall|x: int| 0 <= x < events.len() && kind(#[trigger] events[x]) ==> holds(q, x)
    &&& forall|i: int, j: int| 0 <= i < j < q.len() ==> (#[trigger] q[i]) != (#[trigger] q[j])
    &&& q.len() == count_of(events, kind)
}

/// The event at `a` may stand before the one at `b`.
pub open spec fn event_before(events: Seq<TraceEvent>, sort: Sort, a: int, b: int) -> bool {
    match sort {
        Sort::Ts => events[a].ts < events[b].ts || events[a].ts == events[b].ts && a < b,
        Sort::Dur => lasted(events[a]) > lasted(events[b]) || lasted(events[a]) == lasted(events[b])
            && a < b,
        Sort::Name => text_less(events[a].name@, events[b].name@) || events[a].name@ == events[b].name@
            && events[a].ts <= events[b].ts,
        Sort::Count => a < b,
    }
}

pub proof fn lemma_sorted(
    events: Seq<TraceEvent>,
    p: Seq<usize>,
    kind: spec_fn(TraceEvent) -> bool,
    sort: Sort,
    q: Seq<usize>,
)
    requires
        lists_all(events, p, kind),
        sorted_events(events, p, sort, q),
    ensures
        events_right(events, kind, q),
        forall|i: int, j: int|
            0 <= i < j < q.len() ==> event_before(
                events,
                sort,
                #[trigger] q[i] as int,
                #[trigger] q[j] as int,
            ),
{
    lemma_all_sums(events, p, kind);
    match sort {
        Sort::Ts => {
            let o = choose|o: Seq<usize>| #[trigger]
                orders(ts_keys(events, p), false, o) && picks(p, o, q);
            assert forall|i: int, j: int| 0 <= i < j < q.len() implies #[trigger] o[i] != #[trigger] o[j]
                && event_before(events, sort, q[i] as int, q[j] as int) by {
                assert(comes_before(ts_keys(events, p), false, o[i] as int, o[j] as int));
                assert(o[i] < o[j] ==> p[o[i] as int] < p[o[j] as int]);
            }
            lemma_arranged(events, p, kind, o, q);
            assert forall|i: int, j: int| 0 <= i < j < q.len() implies event_before(
                events,
                sort,
                #[trigger] q[i] as int,
                #[trigger] q[j] as int,
            ) by {
                assert(o[i] != o[j]);
            }
        },
        Sort::Dur => {
            let o = choose|o: Seq<usize>| #[trigger]
                orders(dur_keys(events, p), true, o) && picks(p, o, q);
            assert forall|i: int, j: int| 0 <= i < j < q.len() implies #[trigger] o[i] != #[trigger] o[j]
                && event_before(events, sort, q[i] as int, q[j] as int) by {
                assert(comes_before(dur_keys(events, p), true, o[i] as int, o[j] as int));
                assert(o[i] < o[j] ==> p[o[i] as int] < p[o[j] as int]);
            }
            lemma_arranged(events, p, kind, o, q);
            assert forall|i: int, j: int| 0 <= i < j < q.len() implies event_before(
                events,
                sort,
                #[trigger] q[i] as int,
                #[trigger] q[j] as int,
            ) by {
                assert(o[i] != o[j]);
            }
        },
        Sort::Name => {
            let o = choose|o: Seq<usize>| #[trigger]
                sorts(name_keys(events, p), o) && picks(p, o, q);
            assert forall|i: int, j: int| 0 <= i < j < q.len() implies #[trigger] o[i] != #[trigger] o[j]
                && event_before(events, sort, q[i] as int, q[j] as int) by {
                assert(row_before(name_keys(events, p), o[i] as int, o[j] as int));
            }
            lemma_arranged(events, p, kind, o, q);
            assert forall|i: int, j: int| 0 <= i < j < q.len() implies event_before(
                events,
                sort,
                #[trigger] q[i] as int,
                #[trigger] q[j] as int,
            ) by {
                assert(o[i] != o[j]);
            }
        },
        Sort::Count => {},
    }
}

proof fn lemma_arranged(
    events: Seq<TraceEvent>,
    p: Seq<usize>,
    kind: spec_fn(TraceEvent) -> bool,
    o: Seq<usize>,
    q: Seq<usize>,
)
    requires
        lists_all(events, p, kind),
        o.len() == p.len(),
        picks(p, o, q),
        forall|i: int| 0 <= i < o.len() ==> (#[trigger] o[i]) < p.len(),
        forall|x: int| 0 <= x < p.len() ==> #[trigger] holds(o, x),
        forall|i: int, j: int| 0 <= i < j < o.len() ==> (#[trigger] o[i]) != (#[trigger] o[j]),
    ensures
        events_right(events, kind, q),
{
    lemma_all_sums(events, p, kind);
    assert forall|i: int| 0 <= i < q.len() implies (#[trigger] q[i]) < events.len() && kind(
        events[q[i] as int],
    ) by {
        assert(q[i] == p[o[i] as int]);
    }
    assert forall|x: int| 0 <= x < events.len() && kind(#[trigger] events[x]) implies holds(q, x) by {
        assert(holds(p, x));
        let w = choose|w: int| 0 <= w < p.len() && #[trigger] p[w] == x;
        assert(holds(o, w));
        let v = choose|v: int| 0 <= v < o.len() && #[trigger] o[v] == w;
        assert(q[v] == x);
    }
    assert forall|i: int, j: int| 0 <= i < j < q.len() implies (#[trigger] q[i]) != (#[trigger] q[j]) by {
        assert(o[i] != o[j]);
        if o[i] < o[j] {
            assert(p[o[i] as int] < p[o[j] as int]);
        } else {
            assert(p[o[j] as int] < p[o[i] as int]);
        }
    }
}

} // verus!
