//! Which sections an answer has, what each is about, and how the figures of two
//! traces are put side by side.

use vstd::prelude::*;
use crate::inspect::events::Sort;
use crate::json::JsonView;
use crate::laws::answers::tells;
use crate::laws::gc::in_scope;
use crate::laws::lists::{asked, event_before, events_right, lasted, lemma_events, lemma_names, names_right};
use crate::laws::tasks::{lemma_threads, thread_right};
use crate::matcher::NameFilter;
use crate::query::options::{sort_named, Options};
use crate::query::output::{matched_rows, pair_of, pairs_of, row_named, PairRow};
use crate::query::pair::{comparison_json, figure_json, pair_json, pairs_json};
use crate::query::sections::{answers, asked_at, asked_for, filter_for, kinds_of, runtask_filter, Answer, Kind, Section};
use crate::query::windows::WindowState;
use crate::table::name_views;
use crate::trace::event::{opt_chars, TraceEvent};
use crate::windowed::delta::{DeltaData, DeltaRow};

verus! {

proof fn lemma_asked_for(o: Options, n: int, k: Kind)
    requires
        0 <= n,
    ensures
        asked_for(o, n).contains(k) <==> exists|i: int| 0 <= i < n && #[trigger] asked_at(o, i) == Some(k),
    decreases n,
{
    if n > 0 {
        lemma_asked_for(o, n - 1, k);
        let before = asked_for(o, n - 1);
        let all = asked_for(o, n);
        if before.contains(k) {
            let w = choose|w: int| 0 <= w < before.len() && before[w] == k;
            assert(all[w] == k);
        }
        if asked_at(o, n - 1) == Some(k) {
            assert(all[before.len() as int] == k);
        }
        if all.contains(k) {
            let w = choose|w: int| 0 <= w < all.len() && all[w] == k;
            if w < before.len() {
                assert(before[w] == k);
                let i = choose|i: int| 0 <= i < n - 1 && #[trigger] asked_at(o, i) == Some(k);
                assert(asked_at(o, i) == Some(k));
            } else {
                assert(asked_at(o, n - 1) == Some(k));
            }
        }
    }
}

/// Some other section than that of the longest task is asked for.
pub open spec fn asks_more(o: Options) -> bool {
    o.jank || o.timeline || o.task || o.names || o.threads || o.events is Some || o.function is Some || o.stacks
        || o.calltree || o.gc || o.frames || o.find is Some || o.delta
}

/// A section is there exactly where it is asked for; that of the longest task
/// only where no other is.
pub proof fn lemma_kinds(o: Options)
    ensures
        kinds_of(o).contains(Kind::Jank) <==> o.jank,
        kinds_of(o).contains(Kind::Timeline) <==> o.timeline,
        kinds_of(o).contains(Kind::Task) <==> o.task,
        kinds_of(o).contains(Kind::Names) <==> o.names,
        kinds_of(o).contains(Kind::Threads) <==> o.threads,
        kinds_of(o).contains(Kind::Stats) <==> o.events is Some && o.stats,
        kinds_of(o).contains(Kind::Events) <==> o.events is Some && !o.stats,
        kinds_of(o).contains(Kind::Functions) <==> o.function is Some,
        kinds_of(o).contains(Kind::Stacks) <==> o.stacks,
        kinds_of(o).contains(Kind::CallTree) <==> o.calltree,
        kinds_of(o).contains(Kind::Gc) <==> o.gc,
        kinds_of(o).contains(Kind::Frames) <==> o.frames,
        kinds_of(o).contains(Kind::Find) <==> o.find is Some,
        kinds_of(o).contains(Kind::Delta) <==> o.delta,
        kinds_of(o).contains(Kind::Worst) <==> o.worst && !asks_more(o),
{
    assert(asked_at(o, 0) is Some <==> o.jank);
    assert(asked_at(o, 1) is Some <==> o.timeline);
    assert(asked_at(o, 2) is Some <==> o.task);
    assert(asked_at(o, 3) is Some <==> o.names);
    assert(asked_at(o, 4) is Some <==> o.threads);
    assert(asked_at(o, 5) is Some <==> o.events is Some);
    assert(asked_at(o, 6) is Some <==> o.function is Some);
    assert(asked_at(o, 7) is Some <==> o.stacks);
    assert(asked_at(o, 8) is Some <==> o.calltree);
    assert(asked_at(o, 9) is Some <==> o.gc);
    assert(asked_at(o, 10) is Some <==> o.frames);
    assert(asked_at(o, 11) is Some <==> o.find is Some);
    assert(asked_at(o, 12) is Some <==> o.delta);
    let all = asked_for(o, 13);
    lemma_asked_for(o, 13, Kind::Jank);
    lemma_asked_for(o, 13, Kind::Timeline);
    lemma_asked_for(o, 13, Kind::Task);
    lemma_asked_for(o, 13, Kind::Names);
    lemma_asked_for(o, 13, Kind::Threads);
    lemma_asked_for(o, 13, Kind::Stats);
    lemma_asked_for(o, 13, Kind::Events);
    lemma_asked_for(o, 13, Kind::Functions);
    lemma_asked_for(o, 13, Kind::Stacks);
    lemma_asked_for(o, 13, Kind::CallTree);
    lemma_asked_for(o, 13, Kind::Gc);
    lemma_asked_for(o, 13, Kind::Frames);
    lemma_asked_for(o, 13, Kind::Find);
    lemma_asked_for(o, 13, Kind::Delta);
    lemma_asked_for(o, 13, Kind::Worst);
    if all.len() > 0 {
        let k = all[0];
        assert(all.contains(k));
        lemma_asked_for(o, 13, k);
        assert(asks_more(o));
    } else {
        assert(!asks_more(o));
        let one = seq![Kind::Worst];
        assert(one[0] == Kind::Worst);
    }
}

/// How long an event has to last, where that is asked for.
pub open spec fn least(o: Options) -> i64 {
    if o.min_dur is Some {
        o.min_dur->0
    } else {
        0
    }
}

/// What the sections on events, names and threads list: the events that pass the
/// filter and are long enough, in the order asked for; the names and threads of
/// the scope.
pub proof fn lemma_listed(
    events: Seq<TraceEvent>,
    min_ts: i64,
    w: WindowState,
    o: Options,
    kind: Kind,
    s: Section,
)
    requires
        events.len() <= usize::MAX,
        answers(events, min_ts, w, o, kind, s),
    ensures
        s.kind == kind,
        kind is Events ==> exists|f: NameFilter|
            {
                &&& o.events is Some
                &&& #[trigger] filter_for(o.events->0@, o.regex, f)
                &&& s.answer matches Answer::Events(q) && events_right(
                    events,
                    |e: TraceEvent| asked(f, w.scope, least(o), e),
                    q@,
                ) && forall|i: int, j: int|
                    0 <= i < j < q@.len() ==> event_before(
                        events,
                        sort_named(opt_chars(o.sort)),
                        #[trigger] q@[i] as int,
                        #[trigger] q@[j] as int,
                    )
            },
        kind is Worst ==> (s.answer matches Answer::Events(q) && events_right(
            events,
            |e: TraceEvent| e.name@ == "RunTask"@ && lasted(e) >= 0 && in_scope(w.scope, e),
            q@,
        ) && forall|i: int, j: int|
            0 <= i < j < q@.len() ==> lasted(events[#[trigger] q@[i] as int]) >= lasted(
                events[#[trigger] q@[j] as int],
            )),
        kind is Names ==> (s.answer matches Answer::Names(rows) && names_right(
            events,
            |e: TraceEvent| in_scope(w.scope, e),
            rows@,
        )),
        kind is Threads ==> (s.answer matches Answer::Threads(rows) && forall|k: int|
            0 <= k < rows@.len() ==> thread_right(events, w.scope, #[trigger] rows@[k])),
{
    match (kind, s.answer) {
        (Kind::Events, Answer::Events(q)) => {
            let raw = o.events->0;
            let f = choose|f: NameFilter| #[trigger]
                filter_for(raw@, o.regex, f) && crate::query::sections::events_answer(
                    events,
                    min_ts,
                    w,
                    o,
                    f,
                    crate::query::options::trimmed(raw@),
                    crate::query::sections::least_dur(o),
                    sort_named(opt_chars(o.sort)),
                    q@,
                    crate::doc::doc_view(s.doc@),
                );
            lemma_events(events, f, w.scope, least(o), sort_named(opt_chars(o.sort)), q@);
            assert(filter_for(o.events->0@, o.regex, f));
        },
        (Kind::Worst, Answer::Events(q)) => {
            let f = choose|f: NameFilter| #[trigger]
                runtask_filter(f) && crate::query::sections::events_answer(
                    events,
                    min_ts,
                    w,
                    o,
                    f,
                    "RunTask"@,
                    0,
                    Sort::Dur,
                    q@,
                    crate::doc::doc_view(s.doc@),
                );
            lemma_events(events, f, w.scope, 0, Sort::Dur, q@);
            let passes = |e: TraceEvent| asked(f, w.scope, 0, e);
            let meant = |e: TraceEvent| e.name@ == "RunTask"@ && lasted(e) >= 0 && in_scope(w.scope, e);
            assert forall|e: TraceEvent| #[trigger] passes(e) == meant(e) by {
                let v = f->Exact_0;
                assert(name_views(v@).len() == 1);
                assert(name_views(v@)[0] == "RunTask"@);
                assert(v@[0]@ == "RunTask"@);
            }
            assert(passes =~= meant);
            assert forall|i: int, j: int| 0 <= i < j < q@.len() implies lasted(events[#[trigger] q@[i] as int])
                >= lasted(events[#[trigger] q@[j] as int]) by {
                assert(event_before(events, Sort::Dur, q@[i] as int, q@[j] as int));
            }
        },
        (Kind::Names, Answer::Names(rows)) => {
            lemma_names(events, w.scope, sort_named(opt_chars(o.sort)), rows@);
        },
        (Kind::Threads, Answer::Threads(rows)) => {
            lemma_threads(events, w.scope, rows@);
        },
        _ => {},
    }
}

proof fn lemma_named(rows: Seq<DeltaRow>, metric: Seq<char>, i: int)
    requires
        0 <= i <= rows.len(),
    ensures
        row_named(rows, metric, i) matches Some(j) ==> i <= j < rows.len() && rows[j].metric@ == metric,
        row_named(rows, metric, i) is None ==> forall|j: int|
            i <= j < rows.len() ==> (#[trigger] rows[j]).metric@ != metric,
    decreases rows.len() - i,
{
    if i < rows.len() {
        lemma_named(rows, metric, i + 1);
    }
}

proof fn lemma_matched(a: Seq<DeltaRow>, b: Seq<DeltaRow>, n: int)
    requires
        0 <= n <= a.len(),
    ensures
        forall|k: int|
            0 <= k < matched_rows(a, b, n).len() ==> {
                let m = #[trigger] matched_rows(a, b, n)[k];
                0 <= m.0 < n && 0 <= m.1 < b.len() && a[m.0].metric@ == b[m.1].metric@
            },
        forall|i: int, j: int|
            0 <= i < n && 0 <= j < b.len() && (#[trigger] a[i]).metric@ == (#[trigger] b[j]).metric@ ==> exists|k: int|
                0 <= k < matched_rows(a, b, n).len() && (#[trigger] matched_rows(a, b, n)[k]).0 == i,
    decreases n,
{
    if n > 0 {
        lemma_matched(a, b, n - 1);
        lemma_named(b, a[n - 1].metric@, 0);
        let before = matched_rows(a, b, n - 1);
        let all = matched_rows(a, b, n);
        assert forall|k: int| 0 <= k < all.len() implies {
            let m = #[trigger] all[k];
            0 <= m.0 < n && 0 <= m.1 < b.len() && a[m.0].metric@ == b[m.1].metric@
        } by {
            if k < before.len() {
                assert(all[k] == before[k]);
            }
        }
        assert forall|i: int, j: int| 0 <= i < n && 0 <= j < b.len() && (#[trigger] a[i]).metric@ == (
        #[trigger] b[j]).metric@ implies exists|k: int| 0 <= k < all.len() && (#[trigger] all[k]).0 == i by {
            if i < n - 1 {
                let k = choose|k: int| 0 <= k < before.len() && (#[trigger] before[k]).0 == i;
                assert(all[k].0 == i);
            } else {
                assert(row_named(b, a[n - 1].metric@, 0) is Some);
                assert(all[before.len() as int].0 == i);
            }
        }
    }
}

/// A row of two traces: the figures of the same name at the anchor, how far each
/// is from that before, and the second trace less the first for both.
pub open spec fn side_by_side(a: DeltaRow, b: DeltaRow, p: PairRow) -> bool {
    &&& a.metric@ == b.metric@ && p.metric@ == a.metric@
    &&& p.a_shoot == a.shoot && p.b_shoot == b.shoot
    &&& p.a_delta + a.pre == a.shoot
    &&& p.b_delta + b.pre == b.shoot
    &&& p.a_shoot + p.diff_shoot == p.b_shoot
    &&& p.a_delta + p.diff_delta == p.b_delta
}

/// The rows of a list are each of a row of the first and one of the second.
pub open spec fn from_both(a: Seq<DeltaRow>, b: Seq<DeltaRow>, p: PairRow) -> bool {
    exists|i: int, j: int|
        0 <= i < a.len() && 0 <= j < b.len() && #[trigger] side_by_side(a[i], b[j], p)
}

/// Two traces side by side: a row for each figure that both have, and none for
/// others.
pub proof fn lemma_pairs(a: Seq<DeltaRow>, b: Seq<DeltaRow>, p: Seq<PairRow>)
    requires
        pairs_of(a, b, p),
    ensures
        forall|k: int| 0 <= k < p.len() ==> from_both(a, b, #[trigger] p[k]),
        forall|i: int, j: int|
            0 <= i < a.len() && 0 <= j < b.len() && (#[trigger] a[i]).metric@ == (#[trigger] b[j]).metric@
                ==> exists|k: int| 0 <= k < p.len() && (#[trigger] p[k]).metric@ == a[i].metric@,
{
    let n = a.len() as int;
    let m = matched_rows(a, b, n);
    lemma_matched(a, b, n);
    assert forall|k: int| 0 <= k < p.len() implies from_both(a, b, #[trigger] p[k]) by {
        assert(pair_of(a[m[k].0], b[m[k].1], p[k]));
        assert(side_by_side(a[m[k].0], b[m[k].1], p[k]));
    }
    assert forall|i: int, j: int| 0 <= i < a.len() && 0 <= j < b.len() && (#[trigger] a[i]).metric@ == (
    #[trigger] b[j]).metric@ implies exists|k: int| 0 <= k < p.len() && (#[trigger] p[k]).metric@ == a[i].metric@ by {
        let k = choose|k: int| 0 <= k < m.len() && (#[trigger] m[k]).0 == i;
        assert(pair_of(a[m[k].0], b[m[k].1], p[k]));
    }
}

/// The value of a row of two traces, by key.
pub open spec fn pair_told(v: JsonView, a: DeltaRow, b: DeltaRow) -> bool {
    &&& tells(v, "metric"@, JsonView::Str(a.metric@))
    &&& tells(v, "a_shoot"@, figure_json(a.unit, a.shoot as int))
    &&& tells(v, "b_shoot"@, figure_json(a.unit, b.shoot as int))
    &&& tells(v, "a_delta"@, figure_json(a.unit, a.shoot - a.pre))
    &&& tells(v, "b_delta"@, figure_json(a.unit, b.shoot - b.pre))
    &&& tells(v, "diff_shoot"@, figure_json(a.unit, b.shoot - a.shoot))
    &&& tells(v, "diff_delta"@, figure_json(a.unit, (b.shoot - b.pre) - (a.shoot - a.pre)))
}

/// The value tells of a figure that both have.
pub open spec fn tells_both(a: Seq<DeltaRow>, b: Seq<DeltaRow>, v: JsonView) -> bool {
    exists|i: int, j: int|
        0 <= i < a.len() && 0 <= j < b.len() && a[i].metric@ == b[j].metric@ && #[trigger] pair_told(v, a[i], b[j])
}

/// The comparison of two traces as a value: both anchors, and the rows of the
/// figures that both have.
pub proof fn lemma_comparison(a: &DeltaData, b: &DeltaData)
    ensures
        tells(comparison_json(Some((a, b))), "anchor_a_us"@, crate::values::time_json(a.anchor as int)),
        tells(comparison_json(Some((a, b))), "anchor_b_us"@, crate::values::time_json(b.anchor as int)),
        tells(comparison_json(Some((a, b))), "rows"@, JsonView::Arr(pairs_json(a.rows@, b.rows@))),
        forall|k: int|
            0 <= k < pairs_json(a.rows@, b.rows@).len() ==> tells_both(
                a.rows@,
                b.rows@,
                #[trigger] pairs_json(a.rows@, b.rows@)[k],
            ),
        comparison_json(None) is Null,
{
    let m = comparison_json(Some((a, b)))->Obj_0;
    assert(m[0] == ("anchor_a_us"@, crate::values::time_json(a.anchor as int)));
    assert(m[1] == ("anchor_b_us"@, crate::values::time_json(b.anchor as int)));
    assert(m[2] == ("rows"@, JsonView::Arr(pairs_json(a.rows@, b.rows@))));
    let (x, y) = (a.rows@, b.rows@);
    let pairs = matched_rows(x, y, x.len() as int);
    lemma_matched(x, y, x.len() as int);
    let list = pairs_json(x, y);
    assert forall|k: int| 0 <= k < list.len() implies tells_both(x, y, #[trigger] list[k]) by {
        let (r, s) = (x[pairs[k].0], y[pairs[k].1]);
        let row = pair_json(r, s)->Obj_0;
        assert(row[0] == ("a_delta"@, figure_json(r.unit, r.shoot - r.pre)));
        assert(row[1] == ("a_shoot"@, figure_json(r.unit, r.shoot as int)));
        assert(row[2] == ("b_delta"@, figure_json(r.unit, s.shoot - s.pre)));
        assert(row[3] == ("b_shoot"@, figure_json(r.unit, s.shoot as int)));
        assert(row[4] == ("diff_delta"@, figure_json(r.unit, (s.shoot - s.pre) - (r.shoot - r.pre))));
        assert(row[5] == ("diff_shoot"@, figure_json(r.unit, s.shoot - r.shoot)));
        assert(row[6] == ("metric"@, JsonView::Str(r.metric@)));
        assert(pair_told(list[k], r, s));
    }
}

} // verus!
