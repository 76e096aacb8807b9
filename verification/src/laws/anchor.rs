//! What a query is anchored at, and how far its windows reach.

use vstd::prelude::*;
use vstd::utf8::is_ascii_chars;
use crate::analysis::common::dur_of;
use crate::inspect::task::{is_timed_task, is_worst};
use crate::json::{digits_number, member_opt, str_opt, JsonView};
use crate::laws::gc::in_scope;
use crate::matcher::{
    ascii_lower,
    first_in_items,
    first_in_members,
    first_match,
    items_have,
    matches_text,
    members_have,
    occurs_ignoring_case,
    stands_ignoring_case,
    value_has,
    Matcher,
};
use crate::query::options::{matcher_for, Options};
use crate::query::windows::{center_of, windows_at, windows_of, Center, WindowState};
use crate::scope::{allows_source, Scope};
use crate::text::lowercased;
use crate::trace::event::{opt_chars, TraceEvent};
use crate::trace::meta::is_main_thread;
use crate::windowed::anchor::{
    anchor_of,
    earliest_args,
    earliest_call,
    earliest_node,
    function_name,
    is_call,
    no_args,
    no_call,
    node_anchor,
    Anchor,
};

verus! {

/// A complete call of a function with the given name.
pub open spec fn calls(e: TraceEvent, name: Seq<char>) -> bool {
    &&& e.name@ == "FunctionCall"@
    &&& e.ph == 88
    &&& str_opt(member_opt(member_opt(e@.said(), "data"@), "functionName"@)) == Some(name)
}

/// Where a function whose name matches is called, the anchor is the first such
/// call.
pub proof fn lemma_first_call(
    events: Seq<TraceEvent>,
    m: Matcher,
    r: Option<Anchor>,
    x: int,
    name: Seq<char>,
)
    requires
        anchor_of(events, m, r),
        0 <= x < events.len(),
        calls(events[x], name),
        matches_text(m, name),
    ensures
        r matches Some(a) && {
            &&& a.kind@ == "FunctionCall"@
            &&& a.ts <= events[x].ts
            &&& matches_text(m, a.label@)
            &&& exists|i: int|
                0 <= i < events.len() && calls(#[trigger] events[i], a.label@) && events[i].ts == a.ts
        },
{
    assert(is_call(m, events[x]));
    assert(!no_call(events, m));
    let a = r->0;
    let i = choose|i: int|
        #[trigger] earliest_call(events, m, i) && a.ts == events[i].ts && Some(a.label@)
            == function_name(events[i]);
    assert(calls(events[i], a.label@));
}

/// Whatever the anchor is, what it names matches.
pub proof fn lemma_label_matches(events: Seq<TraceEvent>, m: Matcher, a: Anchor)
    requires
        anchor_of(events, m, Some(a)),
    ensures
        a.kind@ == "FunctionCall"@ || a.kind@ == "cpu-profile"@ || a.kind@ == "args"@,
        matches_text(m, a.label@),
{
    if !no_call(events, m) {
        let i = choose|i: int|
            #[trigger] earliest_call(events, m, i) && a.ts == events[i].ts && Some(a.label@)
                == function_name(events[i]);
        assert(is_call(m, events[i]));
    } else if a.kind@ == "cpu-profile"@ {
        if node_anchor(events, m, false, a) {
            let id = choose|id: u64| #[trigger]
                earliest_node(events, m, false, id) && a.ts == crate::windowed::anchor::first_sample(
                    events,
                    id,
                    events.len() as int,
                )->0 && a.label@ == crate::windowed::anchor::node_text(
                    crate::analysis::cpu::node_of(events, id, 0, events.len() as int)->0,
                    false,
                );
        } else {
            assert(node_anchor(events, m, true, a) || !no_args(events, m));
            if node_anchor(events, m, true, a) {
                let id = choose|id: u64| #[trigger]
                    earliest_node(events, m, true, id) && a.ts
                        == crate::windowed::anchor::first_sample(
                        events,
                        id,
                        events.len() as int,
                    )->0 && a.label@ == crate::windowed::anchor::node_text(
                        crate::analysis::cpu::node_of(events, id, 0, events.len() as int)->0,
                        true,
                    );
            } else {
                lemma_args_label(events, m, a);
            }
        }
    } else {
        lemma_args_label(events, m, a);
    }
}

proof fn lemma_args_label(events: Seq<TraceEvent>, m: Matcher, a: Anchor)
    requires
        exists|i: int|
            #[trigger] earliest_args(events, m, i) && a.ts == events[i].ts && Some(a.label@)
                == crate::windowed::anchor::args_text(m, events[i]),
    ensures
        matches_text(m, a.label@),
{
    let i = choose|i: int|
        #[trigger] earliest_args(events, m, i) && a.ts == events[i].ts && Some(a.label@)
            == crate::windowed::anchor::args_text(m, events[i]);
    lemma_first_matches(events[i]@.said()->0, m);
}

proof fn lemma_first_matches(v: JsonView, m: Matcher)
    ensures
        first_match(v, m) matches Some(t) ==> matches_text(m, t),
    decreases v, 0nat,
{
    match v {
        JsonView::Arr(a) => lemma_items_match(a, m, 0),
        JsonView::Obj(o) => lemma_members_match(o, m, 0),
        _ => {},
    }
}

proof fn lemma_items_match(a: Seq<JsonView>, m: Matcher, i: int)
    ensures
        first_in_items(a, m, i) matches Some(t) ==> matches_text(m, t),
    decreases a, a.len() - i,
{
    if 0 <= i < a.len() {
        lemma_first_matches(a[i], m);
        lemma_items_match(a, m, i + 1);
    }
}

proof fn lemma_members_match(o: Seq<(Seq<char>, JsonView)>, m: Matcher, i: int)
    ensures
        first_in_members(o, m, i) matches Some(t) ==> matches_text(m, t),
    decreases o, o.len() - i,
{
    if 0 <= i < o.len() {
        assert(decreases_to!(o => o[i]));
        assert(decreases_to!(o[i] => o[i].1));
        lemma_first_matches(o[i].1, m);
        lemma_members_match(o, m, i + 1);
    }
}

/// Where nothing is found, no call matches and no string of the arguments does.
pub proof fn lemma_nothing_missed(events: Seq<TraceEvent>, m: Matcher, x: int, name: Seq<char>)
    requires
        anchor_of(events, m, None),
        0 <= x < events.len(),
        calls(events[x], name) || events[x]@.said() == Some(JsonView::Str(name)) || events[x]@.said()
            == Some(JsonView::Number(name)),
    ensures
        !matches_text(m, name),
{
    if matches_text(m, name) {
        if calls(events[x], name) {
            assert(is_call(m, events[x]));
        } else {
            assert(crate::windowed::anchor::args_text(m, events[x]) is Some);
        }
    }
}

/// A text is matched by a pattern that is no regular expression exactly where it
/// holds the pattern, whatever the case of either.
pub proof fn lemma_matches_ignoring_case(pattern: Seq<char>, m: Matcher, t: Seq<char>)
    requires
        matcher_for(pattern, false, m),
    ensures
        m is Substr,
        matches_text(m, t) <==> occurs_ignoring_case(t, lowercased(pattern)),
{
}

/// What is found in a text is found in any that holds it.
pub proof fn lemma_found_within(m: Matcher, a: Seq<char>, t: Seq<char>, b: Seq<char>)
    requires
        m matches Matcher::Substr(p) && is_ascii_chars(p@),
        matches_text(m, t),
    ensures
        matches_text(m, a + t + b),
{
    let p = m->Substr_0@;
    let i = choose|i: int| #[trigger] stands_ignoring_case(t, p, i);
    let whole = a + t + b;
    assert(stands_ignoring_case(whole, p, a.len() + i)) by {
        assert forall|j: int| 0 <= j < p.len() implies ascii_lower(#[trigger] p[j]) == ascii_lower(
            whole[a.len() + i + j],
        ) by {
            assert(whole[a.len() + i + j] == t[i + j]);
        }
    }
}

/// A value is found where one of its parts is: an item of an array, or a key or
/// a value of an object.
pub proof fn lemma_found_in_parts(m: Matcher, v: JsonView)
    ensures
        v matches JsonView::Arr(a) ==> (value_has(v, m) <==> exists|i: int|
            0 <= i < a.len() && value_has(#[trigger] a[i], m)),
        v matches JsonView::Obj(o) ==> (value_has(v, m) <==> exists|i: int|
            0 <= i < o.len() && (matches_text(m, (#[trigger] o[i]).0) || value_has(o[i].1, m))),
        v matches JsonView::Str(t) ==> (value_has(v, m) <==> matches_text(m, t)),
        v matches JsonView::Number(t) ==> (value_has(v, m) <==> matches_text(m, t)),
{
    match v {
        JsonView::Arr(a) => lemma_some_item(a, m, 0),
        JsonView::Obj(o) => lemma_some_member(o, m, 0),
        _ => {},
    }
}

proof fn lemma_some_item(a: Seq<JsonView>, m: Matcher, i: int)
    requires
        0 <= i <= a.len(),
    ensures
        items_have(a, m, i) <==> exists|j: int| i <= j < a.len() && value_has(#[trigger] a[j], m),
    decreases a.len() - i,
{
    if i < a.len() {
        lemma_some_item(a, m, i + 1);
        if items_have(a, m, i) && !value_has(a[i], m) {
            let j = choose|j: int| i + 1 <= j < a.len() && value_has(#[trigger] a[j], m);
            assert(i <= j < a.len() && value_has(a[j], m));
        }
    }
}

proof fn lemma_some_member(o: Seq<(Seq<char>, JsonView)>, m: Matcher, i: int)
    requires
        0 <= i <= o.len(),
    ensures
        members_have(o, m, i) <==> exists|j: int|
            i <= j < o.len() && (matches_text(m, (#[trigger] o[j]).0) || value_has(o[j].1, m)),
    decreases o.len() - i,
{
    if i < o.len() {
        lemma_some_member(o, m, i + 1);
        if members_have(o, m, i + 1) {
            let j = choose|j: int|
                i + 1 <= j < o.len() && (matches_text(m, (#[trigger] o[j]).0) || value_has(o[j].1, m));
            assert(i <= j < o.len() && (matches_text(m, o[j].0) || value_has(o[j].1, m)));
        }
    }
}

/// Around a time that is asked for, the window reaches as far as is asked to
/// either side, a tenth of a second where nothing is; the windows before and
/// after it adjoin it and are as long as is asked.
pub proof fn lemma_around(events: Seq<TraceEvent>, min_ts: i64, o: Options, w: WindowState, t: i64)
    requires
        windows_of(events, min_ts, o, w),
        !o.worst,
        o.anchor is None,
        o.around == Some(t),
        -0x0800_0000_0000_0000 <= min_ts <= 0x0800_0000_0000_0000,
        -0x0800_0000_0000_0000 <= t <= 0x0800_0000_0000_0000,
        0 <= o.pre <= 0x0800_0000_0000_0000,
        0 <= o.post <= 0x0800_0000_0000_0000,
        o.window matches Some(h) ==> 0 <= h <= 0x0800_0000_0000_0000,
    ensures
        ({
            let h: int = match o.window {
                Some(h) => h as int,
                None => 100_000_000,
            };
            let c = min_ts + t;
            &&& w.shoot matches Some((a, b)) && a == c - h && b == c + h
            &&& w.pre matches Some((a, b)) && a == c - h - o.pre && b == c - h
            &&& w.post matches Some((a, b)) && a == c + h && b == c + h + o.post
            &&& w.scope.window == w.shoot
        }),
{
    let c = choose|c: Center| #[trigger]
        center_of(events, min_ts, o, w.scope, c) && windows_at(c, o, min_ts, w);
}

/// Without anything to be anchored at there is no window.
pub proof fn lemma_no_anchor(events: Seq<TraceEvent>, min_ts: i64, o: Options, w: WindowState)
    requires
        windows_of(events, min_ts, o, w),
        !o.worst,
        o.anchor is None,
        o.around is None,
    ensures
        w.shoot is None,
        w.pre is None,
        w.post is None,
        w.scope.window is None,
{
    let c = choose|c: Center| #[trigger]
        center_of(events, min_ts, o, w.scope, c) && windows_at(c, o, min_ts, w);
}

/// A complete task with a duration, of the thread, process and category that
/// are asked for.
pub open spec fn timed(s: Scope, e: TraceEvent) -> bool {
    &&& e.name@ == "RunTask"@
    &&& e.ph == 88
    &&& e.dur is Some
    &&& in_scope(Scope { window: None, ..s }, e)
}

/// The worst task is the longest of the scope: the window is around its start,
/// half as wide as it is long to either side and at least fifty milliseconds,
/// where nothing else is asked for.
pub proof fn lemma_worst(events: Seq<TraceEvent>, min_ts: i64, o: Options, w: WindowState, x: int)
    requires
        windows_of(events, min_ts, o, w),
        o.worst,
        0 <= x < events.len(),
        timed(w.scope, events[x]),
        forall|i: int|
            0 <= i < events.len() ==> -0x0800_0000_0000_0000 <= (#[trigger] events[i]).ts
                <= 0x0800_0000_0000_0000 && (events[i].dur matches Some(d) ==> 0 <= d
                <= 0x0800_0000_0000_0000),
        o.window is None,
    ensures
        exists|i: int|
            {
                &&& 0 <= i < events.len()
                &&& timed(w.scope, #[trigger] events[i])
                &&& events[i].dur->0 >= events[x].dur->0
                &&& w.anchor_ts == Some(events[i].ts)
                &&& w.shoot matches Some((a, b)) && a + b == 2 * events[i].ts && b - a == if events[i].dur->0
                    > 100_000_000 {
                    2 * (events[i].dur->0 / 2)
                } else {
                    100_000_000
                }
            },
{
    let c = choose|c: Center| #[trigger]
        center_of(events, min_ts, o, w.scope, c) && windows_at(c, o, min_ts, w);
    assert(is_timed_task(events[x]) && allows_source(w.scope, events[x]));
    match c {
        Center::Task(ts, dur) => {
            let i = choose|i: int| #[trigger]
                is_worst(events, w.scope, i) && ts == events[i].ts && dur == dur_of(events[i]);
            assert(timed(w.scope, events[i]));
        },
        _ => {},
    }
}

/// The thread that is asked for is the one with that number, or the main
/// thread.
pub proof fn lemma_thread_asked(events: Seq<TraceEvent>, min_ts: i64, o: Options, w: WindowState)
    requires
        windows_of(events, min_ts, o, w),
    ensures
        o.tid is None ==> w.scope.tid is None,
        opt_chars(o.tid) == Some("main"@) ==> w.scope.tid is Some && is_main_thread(
            events,
            w.scope.tid->0,
        ),
        o.tid matches Some(t) ==> (t@.len() > 0 && '0' <= t@[0] <= '9' ==> w.scope.tid
            == digits_number(t@) && w.scope.tid is Some),
        o.tid matches Some(t) ==> (t@.len() > 0 && t@[0] == '+' ==> w.scope.tid == digits_number(t@.skip(1))
            && w.scope.tid is Some),
        w.scope.pid == o.pid,
        o.cat is None ==> w.scope.cat is None,
        o.cat matches Some(c) ==> (w.scope.cat matches Some(s) && s@ == lowercased(c@)),
{
    reveal_strlit("main");
    assert("main"@[0] == 'm');
}

} // verus!
