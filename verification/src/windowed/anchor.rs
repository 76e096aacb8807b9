//! Semantic anchors: the first occurrence of a pattern in a trace.

use vstd::prelude::*;
use crate::analysis::common::TICK_BOUND;
use crate::analysis::cpu::{
    chunk_deltas,
    chunk_nodes,
    chunk_samples,
    delta_at,
    delta_sum,
    deltas_in,
    find_start,
    first_in,
    lemma_delta_bound,
    node_of,
    node_view,
    nodes_in,
    profile_fits,
    profile_start,
    read_node,
    sample_count,
    sample_node,
    samples_in,
    NodeView,
    ProfileNode,
};
use crate::json::{get_opt, json_views, member_opt, str_opt, JsonView};
use crate::matcher::{first_match, matches_text, value_match_text, Matcher};
use crate::table::{lemma_slot_in, slot_in, IdTable};
use crate::text::same;
use crate::trace::event::{opt_chars, TraceEvent};
use crate::trace::meta::PH_COMPLETE;

verus! {

/// A point in time: the first occurrence of a pattern.
pub struct Anchor {
    /// Absolute time, in nanoseconds.
    pub ts: i128,
    /// What matched: a call, a sampled node, or an argument.
    pub kind: &'static str,
    /// The matched text.
    pub label: String,
}

/// The function that a call event names.
pub open spec fn function_name(e: TraceEvent) -> Option<Seq<char>> {
    str_opt(member_opt(member_opt(e@.said(), "data"@), "functionName"@))
}

/// A call of a matching function.
pub open spec fn is_call(m: Matcher, e: TraceEvent) -> bool {
    &&& e.name@ == "FunctionCall"@
    &&& e.ph == PH_COMPLETE
    &&& function_name(e) matches Some(name) && matches_text(m, name)
}

/// The text of an event's arguments that matches.
pub open spec fn args_text(m: Matcher, e: TraceEvent) -> Option<Seq<char>> {
    match e@.said() {
        Some(v) => first_match(v, m),
        None => None,
    }
}

/// Event `i` is the earliest call of a matching function, the first of several
/// at one time.
pub open spec fn earliest_call(events: Seq<TraceEvent>, m: Matcher, i: int) -> bool {
    &&& 0 <= i < events.len()
    &&& is_call(m, events[i])
    &&& forall|j: int|
        0 <= j < events.len() && is_call(m, #[trigger] events[j]) ==> events[i].ts < events[j].ts
            || events[i].ts == events[j].ts && i <= j
}

/// Event `i` is the earliest with matching arguments, the first of several at
/// one time.
pub open spec fn earliest_args(events: Seq<TraceEvent>, m: Matcher, i: int) -> bool {
    &&& 0 <= i < events.len()
    &&& args_text(m, events[i]) is Some
    &&& forall|j: int|
        0 <= j < events.len() && args_text(m, #[trigger] events[j]) is Some ==> events[i].ts
            < events[j].ts || events[i].ts == events[j].ts && i <= j
}

/// The time of the last sample of a process before event `n`, over the chunks
/// that have samples.
pub open spec fn walk_time(events: Seq<TraceEvent>, n: int, pid: u64) -> int
    decreases n,
{
    if n <= 0 {
        match profile_start(events, pid) {
            Some(t) => t as int,
            None => 0,
        }
    } else {
        let e = events[n - 1];
        walk_time(events, n - 1, pid) + if e.pid == pid {
            delta_sum(chunk_deltas(e), sample_count(e) as int)
        } else {
            0
        }
    }
}

/// The smaller of two times that may be missing.
pub open spec fn min_opt(a: Option<int>, b: Option<int>) -> Option<int> {
    match (a, b) {
        (Some(x), Some(y)) => Some(
            if y < x {
                y
            } else {
                x
            },
        ),
        (Some(x), None) => Some(x),
        (None, y) => y,
    }
}

/// The earliest of the first `k` samples of event `i` that are of node `id`.
/// A sample lies at the end of the gap before it.
pub open spec fn chunk_first(events: Seq<TraceEvent>, i: int, id: u64, k: int) -> Option<int>
    decreases k,
{
    if k <= 0 {
        None
    } else {
        let e = events[i];
        min_opt(
            chunk_first(events, i, id, k - 1),
            if sample_node(chunk_samples(e)[k - 1]) == id {
                Some(walk_time(events, i, e.pid) + delta_sum(chunk_deltas(e), k))
            } else {
                None
            },
        )
    }
}

/// The node is known after `n` events.
pub open spec fn known(events: Seq<TraceEvent>, id: u64, n: int) -> bool {
    id != 0 && node_of(events, id, 0, n) is Some
}

/// The earliest sample of a node in the first `n` events, from the chunk on
/// that tells of the node.
pub open spec fn first_sample(events: Seq<TraceEvent>, id: u64, n: int) -> Option<int>
    decreases n,
{
    if n <= 0 {
        None
    } else {
        min_opt(
            first_sample(events, id, n - 1),
            if known(events, id, n) {
                chunk_first(events, n - 1, id, sample_count(events[n - 1]) as int)
            } else {
                None
            },
        )
    }
}

/// The text of a node that is matched: its name, or its address.
pub open spec fn node_text(n: NodeView, by_url: bool) -> Seq<char> {
    if by_url {
        n.url
    } else {
        n.name
    }
}

/// Node `id` was sampled and matches.
pub open spec fn node_candidate(events: Seq<TraceEvent>, m: Matcher, by_url: bool, id: u64) -> bool {
    let n = events.len() as int;
    &&& known(events, id, n)
    &&& first_sample(events, id, n) is Some
    &&& matches_text(m, node_text(node_of(events, id, 0, n)->0, by_url))
}

/// Node `id` is a candidate, and none was sampled earlier.
pub open spec fn earliest_node(events: Seq<TraceEvent>, m: Matcher, by_url: bool, id: u64) -> bool {
    let n = events.len() as int;
    &&& node_candidate(events, m, by_url, id)
    &&& forall|other: u64| #[trigger]
        node_candidate(events, m, by_url, other) ==> first_sample(events, id, n)->0 <= first_sample(
            events,
            other,
            n,
        )->0
}

pub open spec fn no_node(events: Seq<TraceEvent>, m: Matcher, by_url: bool) -> bool {
    forall|id: u64| !#[trigger] node_candidate(events, m, by_url, id)
}

/// An anchor at the earliest sample of a node.
pub open spec fn node_anchor(events: Seq<TraceEvent>, m: Matcher, by_url: bool, a: Anchor) -> bool {
    let n = events.len() as int;
    &&& a.kind@ == "cpu-profile"@
    &&& exists|id: u64|
        {
            &&& #[trigger] earliest_node(events, m, by_url, id)
            &&& a.ts == first_sample(events, id, n)->0
            &&& a.label@ == node_text(node_of(events, id, 0, n)->0, by_url)
        }
}

pub open spec fn no_call(events: Seq<TraceEvent>, m: Matcher) -> bool {
    forall|j: int| 0 <= j < events.len() ==> !is_call(m, #[trigger] events[j])
}

pub open spec fn no_args(events: Seq<TraceEvent>, m: Matcher) -> bool {
    forall|j: int| 0 <= j < events.len() ==> args_text(m, #[trigger] events[j]) is None
}

/// The anchor of a pattern, by priority: a call of a matching function, a
/// sampled node by name, then one by address, then any argument.
pub open spec fn anchor_of(events: Seq<TraceEvent>, m: Matcher, r: Option<Anchor>) -> bool {
    if !no_call(events, m) {
        r matches Some(a) && a.kind@ == "FunctionCall"@ && exists|i: int|
            #[trigger] earliest_call(events, m, i) && a.ts == events[i].ts && Some(a.label@)
                == function_name(events[i])
    } else if !no_node(events, m, false) {
        r matches Some(a) && node_anchor(events, m, false, a)
    } else if !no_node(events, m, true) {
        r matches Some(a) && node_anchor(events, m, true, a)
    } else if !no_args(events, m) {
        r matches Some(a) && a.kind@ == "args"@ && exists|i: int|
            #[trigger] earliest_args(events, m, i) && a.ts == events[i].ts && Some(a.label@)
                == args_text(m, events[i])
    } else {
        r is None
    }
}

/// The name of the called function, when the event is a matching call.
fn call_name<'a>(m: &Matcher, e: &'a TraceEvent) -> (r: Option<&'a str>)
    ensures
        match r {
            Some(name) => is_call(*m, *e) && function_name(*e) == Some(name@),
            None => !is_call(*m, *e),
        },
{
    if e.ph != PH_COMPLETE || !same(e.name.as_str(), "FunctionCall") {
        return None;
    }
    let value = e.args_value();
    match get_opt(get_opt(value, "data"), "functionName") {
        Some(j) => match j.as_str() {
            Some(name) => if m.matches(name) {
                Some(name)
            } else {
                None
            },
            None => None,
        },
        None => None,
    }
}

fn find_call(events: &[TraceEvent], m: &Matcher) -> (r: Option<Anchor>)
    ensures
        match r {
            Some(a) => !no_call(events@, *m) && a.kind@ == "FunctionCall"@ && exists|i: int|
                #[trigger] earliest_call(events@, *m, i) && a.ts == events@[i].ts && Some(a.label@)
                    == function_name(events@[i]),
            None => no_call(events@, *m),
        },
{
    let n = events.len();
    let mut best: Option<usize> = None;
    let mut i: usize = 0;
    while i < n
        invariant
            n == events@.len(),
            i <= n,
            match best {
                Some(b) => b < i && is_call(*m, events@[b as int]) && forall|j: int|
                    0 <= j < i && is_call(*m, #[trigger] events@[j]) ==> events@[b as int].ts
                        < events@[j].ts || events@[b as int].ts == events@[j].ts && b <= j,
                None => forall|j: int| 0 <= j < i ==> !is_call(*m, #[trigger] events@[j]),
            },
        decreases n - i,
    {
        let e = &events[i];
        if call_name(m, e).is_some() {
            let better = match best {
                Some(b) => e.ts < events[b].ts,
                None => true,
            };
            if better {
                best = Some(i);
            }
        }
        i = i + 1;
    }
    match best {
        Some(b) => {
            let e = &events[b];
            assert(earliest_call(events@, *m, b as int));
            let label = match call_name(m, e) {
                Some(name) => name.to_owned(),
                None => String::new(),
            };
            Some(Anchor { ts: e.ts as i128, kind: "FunctionCall", label })
        },
        None => None,
    }
}

fn match_args(m: &Matcher, e: &TraceEvent) -> (r: Option<String>)
    ensures
        opt_chars(r) == args_text(*m, *e),
{
    match e.args_value() {
        Some(v) => value_match_text(v, m),
        None => None,
    }
}

fn find_args(events: &[TraceEvent], m: &Matcher) -> (r: Option<Anchor>)
    ensures
        match r {
            Some(a) => !no_args(events@, *m) && a.kind@ == "args"@ && exists|i: int|
                #[trigger] earliest_args(events@, *m, i) && a.ts == events@[i].ts && Some(a.label@)
                    == args_text(*m, events@[i]),
            None => no_args(events@, *m),
        },
{
    let n = events.len();
    let mut best: Option<usize> = None;
    let mut i: usize = 0;
    while i < n
        invariant
            n == events@.len(),
            i <= n,
            match best {
                Some(b) => b < i && args_text(*m, events@[b as int]) is Some && forall|j: int|
                    0 <= j < i && args_text(*m, #[trigger] events@[j]) is Some ==> events@[b as int].ts
                        < events@[j].ts || events@[b as int].ts == events@[j].ts && b <= j,
                None => forall|j: int| 0 <= j < i ==> args_text(*m, #[trigger] events@[j]) is None,
            },
        decreases n - i,
    {
        let e = &events[i];
        let better = match best {
            Some(b) => e.ts < events[b].ts,
            None => true,
        };
        if better && match_args(m, e).is_some() {
            best = Some(i);
        }
        i = i + 1;
    }
    match best {
        Some(b) => {
            let e = &events[b];
            assert(earliest_args(events@, *m, b as int));
            let label = match match_args(m, e) {
                Some(text) => text,
                None => String::new(),
            };
            Some(Anchor { ts: e.ts as i128, kind: "args", label })
        },
        None => None,
    }
}

/// The nodes that are known, each with its earliest sample.
struct Firsts {
    ids: IdTable,
    nodes: Vec<ProfileNode>,
    times: Vec<Option<i128>>,
}

spec fn opt_int(t: Option<i128>) -> Option<int> {
    match t {
        Some(x) => Some(x as int),
        None => None,
    }
}

/// Slot `s` holds the node with its id and its earliest sample.
spec fn slot_of(events: Seq<TraceEvent>, n: int, f: Firsts, s: int) -> bool {
    let id = f.ids@[s];
    &&& known(events, id, n)
    &&& f.nodes@[s]@ == node_of(events, id, 0, n)->0
    &&& opt_int(f.times@[s]) == first_sample(events, id, n)
}

spec fn firsts_of(events: Seq<TraceEvent>, n: int, f: Firsts) -> bool {
    &&& f.ids.wf()
    &&& f.nodes@.len() == f.ids@.len()
    &&& f.times@.len() == f.ids@.len()
    &&& forall|s: int| 0 <= s < f.ids@.len() ==> #[trigger] slot_of(events, n, f, s)
    &&& forall|id: u64| #[trigger] known(events, id, n) ==> f.ids@.contains(id)
}

/// Before a node is known it has no sample.
proof fn lemma_unknown(events: Seq<TraceEvent>, id: u64, n: int)
    requires
        !known(events, id, n),
    ensures
        first_sample(events, id, n) is None,
    decreases n,
{
    if n > 0 {
        assert(!known(events, id, n - 1));
        lemma_unknown(events, id, n - 1);
    }
}

/// Part-way through the nodes of event `n`: the first `k` of them are taken in.
spec fn partly(events: Seq<TraceEvent>, n: int, k: int, f: Firsts) -> bool {
    let list = chunk_nodes(events[n]);
    &&& f.ids.wf()
    &&& f.nodes@.len() == f.ids@.len()
    &&& f.times@.len() == f.ids@.len()
    &&& forall|s: int| 0 <= s < f.ids@.len() ==> #[trigger] partly_slot(events, n, k, f, s)
    &&& forall|id: u64| #[trigger] partly_known(events, n, k, id) is Some ==> f.ids@.contains(id)
}

/// The node with the given id after the first `k` nodes of event `n`.
spec fn partly_known(events: Seq<TraceEvent>, n: int, k: int, id: u64) -> Option<NodeView> {
    if id == 0 {
        None
    } else if node_of(events, id, 0, n) is Some {
        node_of(events, id, 0, n)
    } else {
        first_in(chunk_nodes(events[n]).take(k), id)
    }
}

spec fn partly_slot(events: Seq<TraceEvent>, n: int, k: int, f: Firsts, s: int) -> bool {
    let id = f.ids@[s];
    &&& partly_known(events, n, k, id) is Some
    &&& f.nodes@[s]@ == partly_known(events, n, k, id)->0
    &&& opt_int(f.times@[s]) == first_sample(events, id, n)
}

/// Take in the nodes of event `n`.
fn take_nodes(events: &[TraceEvent], n: usize, f: &mut Firsts)
    requires
        n < events@.len(),
        firsts_of(events@, n as int, *old(f)),
    ensures
        partly(events@, n as int, chunk_nodes(events@[n as int]).len() as int, *final(f)),
{
    let ghost gn = n as int;
    let ghost all = chunk_nodes(events@[gn]);
    proof {
        assert(all.take(0) =~= Seq::<JsonView>::empty());
        assert forall|s: int| 0 <= s < f.ids@.len() implies #[trigger] partly_slot(
            events@,
            gn,
            0,
            *f,
            s,
        ) by {
            assert(slot_of(events@, gn, *f, s));
        }
        assert forall|id: u64| #[trigger] partly_known(events@, gn, 0, id) is Some implies f.ids@.contains(
            id,
        ) by {
            assert(known(events@, id, gn));
        }
    }
    let list = match nodes_in(&events[n]) {
        Some(v) => v,
        None => {
            return ;
        },
    };
    let mut k: usize = 0;
    while k < list.len()
        invariant
            k <= list@.len(),
            gn == n,
            n < events@.len(),
            json_views(list@) == all,
            all == chunk_nodes(events@[gn]),
            partly(events@, gn, k as int, *f),
        decreases list@.len() - k,
    {
        let ghost f0 = *f;
        let node = read_node(&list[k]);
        let ghost v = node@;
        proof {
            assert(all.take(k + 1).drop_last() =~= all.take(k as int));
            assert(all.take(k + 1).last() == all[k as int]);
            assert(v == node_view(all[k as int]));
            assert forall|id: u64| #[trigger] partly_known(events@, gn, k + 1, id) == (if partly_known(
                events@,
                gn,
                k as int,
                id,
            ) is Some {
                partly_known(events@, gn, k as int, id)
            } else if id != 0 && v.id == id {
                Some(v)
            } else {
                None
            }) by {}
        }
        let fresh = node.id != 0 && f.ids.find(node.id).is_none();
        if fresh {
            let slot = f.ids.add(node.id);
            f.nodes.push(node);
            f.times.push(None);
        }
        proof {
            assert forall|s: int| 0 <= s < f.ids@.len() implies #[trigger] partly_slot(
                events@,
                gn,
                k + 1,
                *f,
                s,
            ) by {
                if s < f0.ids@.len() {
                    assert(partly_slot(events@, gn, k as int, f0, s));
                    assert(f.ids@[s] == f0.ids@[s]);
                    assert(f.nodes@[s] == f0.nodes@[s]);
                    assert(f.times@[s] == f0.times@[s]);
                } else {
                    assert(f.ids@[s] == v.id);
                    assert(partly_known(events@, gn, k as int, v.id) is None) by {
                        if partly_known(events@, gn, k as int, v.id) is Some {
                            assert(f0.ids@.contains(v.id));
                        }
                    }
                    assert(!known(events@, v.id, gn));
                    lemma_unknown(events@, v.id, gn);
                }
            }
            assert forall|id: u64| #[trigger] partly_known(events@, gn, k + 1, id) is Some implies f.ids@.contains(
                id,
            ) by {
                if partly_known(events@, gn, k as int, id) is Some {
                    assert(f0.ids@.contains(id));
                    let w = choose|w: int| 0 <= w < f0.ids@.len() && f0.ids@[w] == id;
                    assert(f.ids@[w] == id);
                } else {
                    if fresh {
                        assert(f.ids@[f0.ids@.len() as int] == id);
                    } else {
                        assert(f0.ids@.contains(id));
                    }
                }
            }
        }
        k = k + 1;
    }
}

proof fn lemma_walk_bound(events: Seq<TraceEvent>, n: int, pid: u64)
    requires
        profile_fits(events),
        0 <= n <= events.len(),
    ensures
        -TICK_BOUND * (1 + n * u32::MAX) <= walk_time(events, n, pid) <= TICK_BOUND * (1 + n
            * u32::MAX),
    decreases n,
{
    if n > 0 {
        lemma_walk_bound(events, n - 1, pid);
        let d = chunk_deltas(events[n - 1]);
        lemma_delta_bound(d, sample_count(events[n - 1]) as int);
    }
}

/// Part-way through the samples of event `n`: the first `k` of them count.
spec fn sampled(events: Seq<TraceEvent>, n: int, k: int, f: Firsts) -> bool {
    &&& f.ids.wf()
    &&& f.nodes@.len() == f.ids@.len()
    &&& f.times@.len() == f.ids@.len()
    &&& forall|s: int| 0 <= s < f.ids@.len() ==> #[trigger] sampled_slot(events, n, k, f, s)
    &&& forall|id: u64| #[trigger] known(events, id, n + 1) ==> f.ids@.contains(id)
}

spec fn sampled_slot(events: Seq<TraceEvent>, n: int, k: int, f: Firsts, s: int) -> bool {
    let id = f.ids@[s];
    &&& known(events, id, n + 1)
    &&& f.nodes@[s]@ == node_of(events, id, 0, n + 1)->0
    &&& opt_int(f.times@[s]) == min_opt(
        first_sample(events, id, n),
        chunk_first(events, n, id, k),
    )
}

/// Count the samples of event `n`. Gives the time of the last one.
fn take_samples(events: &[TraceEvent], n: usize, start: i128, f: &mut Firsts) -> (end: i128)
    requires
        profile_fits(events@),
        n < events@.len(),
        start == walk_time(events@, n as int, events@[n as int].pid),
        partly(events@, n as int, chunk_nodes(events@[n as int]).len() as int, *old(f)),
    ensures
        firsts_of(events@, n + 1, *final(f)),
        end == walk_time(events@, n + 1, events@[n as int].pid),
{
    let e = &events[n];
    let ghost gn = n as int;
    let ghost count = sample_count(*e) as int;
    proof {
        let all = chunk_nodes(*e);
        assert(all.take(all.len() as int) =~= all);
        assert forall|id: u64| partly_known(events@, gn, all.len() as int, id) == (if known(
            events@,
            id,
            gn + 1,
        ) {
            #[trigger] node_of(events@, id, 0, gn + 1)
        } else {
            None
        }) by {}
        assert forall|s: int| 0 <= s < f.ids@.len() implies #[trigger] sampled_slot(
            events@,
            gn,
            0,
            *f,
            s,
        ) by {
            assert(partly_slot(events@, gn, all.len() as int, *f, s));
            let x = node_of(events@, f.ids@[s], 0, gn + 1);
        }
        assert forall|id: u64| #[trigger] known(events@, id, gn + 1) implies f.ids@.contains(id) by {
            assert(partly_known(events@, gn, all.len() as int, id) is Some) by {
                let x = node_of(events@, id, 0, gn + 1);
            }
        }
        assert(sampled(events@, gn, 0, *f));
    }
    let samples = samples_in(e);
    let deltas = deltas_in(e);
    let len: usize = match (samples, deltas) {
        (Some(s), Some(d)) => if s.len() <= d.len() {
            s.len()
        } else {
            d.len()
        },
        _ => 0,
    };
    assert(len == count);
    let mut ts: i128 = start;
    let mut k: usize = 0;
    proof {
        lemma_walk_bound(events@, gn, e.pid);
        assert(chunk_deltas(events@[gn]).len() <= u32::MAX);
        assert(n * u32::MAX + u32::MAX <= u32::MAX * u32::MAX) by (nonlinear_arith)
            requires
                n < u32::MAX,
        ;
    }
    while k < len
        invariant
            gn == n,
            n < events@.len(),
            *e == events@[gn],
            len == sample_count(*e),
            len <= u32::MAX,
            samples matches Some(s) && json_views(s@) == chunk_samples(*e) && len <= s@.len() || len == 0,
            deltas matches Some(d) && json_views(d@) == chunk_deltas(*e) && len <= d@.len() || len == 0,
            k <= len,
            start == walk_time(events@, gn, e.pid),
            -TICK_BOUND * (1 + n * u32::MAX) <= start <= TICK_BOUND * (1 + n * u32::MAX),
            n * u32::MAX + u32::MAX <= u32::MAX * u32::MAX,
            ts == start + delta_sum(chunk_deltas(*e), k as int),
            sampled(events@, gn, k as int, *f),
        decreases len - k,
    {
        let ghost f0 = *f;
        let s = samples.unwrap();
        let d = deltas.unwrap();
        proof {
            let nu: int = n * u32::MAX;
            let ds: int = delta_sum(json_views(d@), k as int);
            lemma_delta_bound(json_views(d@), k as int);
            assert(json_views(d@)[k as int] == d@[k as int]@);
            assert(json_views(s@)[k as int] == s@[k as int]@);
            assert(-TICK_BOUND * (1 + nu + k) <= start + ds <= TICK_BOUND * (1 + nu + k))
                by (nonlinear_arith)
                requires
                    -TICK_BOUND * (1 + nu) <= start <= TICK_BOUND * (1 + nu),
                    -TICK_BOUND * k <= ds <= TICK_BOUND * k,
            ;
            assert(1 + n * u32::MAX + k + 1 <= 0x1_0000_0000_0000_0000 - 1);
        }
        ts = ts + delta_at(&d[k]) as i128;
        let id: u64 = match s[k].as_u64() {
            Some(v) => v,
            None => 0,
        };
        assert(id == sample_node(chunk_samples(*e)[k as int]));
        if let Some(slot) = f.ids.find(id) {
            let earlier = match f.times[slot] {
                Some(t) => ts < t,
                None => true,
            };
            if earlier {
                f.times.set(slot, Some(ts));
            }
        }
        proof {
            assert forall|x: int| 0 <= x < f.ids@.len() implies #[trigger] sampled_slot(
                events@,
                gn,
                k + 1,
                *f,
                x,
            ) by {
                assert(sampled_slot(events@, gn, k as int, f0, x));
                if f.ids@[x] == id {
                    lemma_slot_in(f.ids@, id);
                    f.ids.lemma_distinct(x, slot_in(f.ids@, id)->0);
                }
            }
        }
        k = k + 1;
    }
    proof {
        assert forall|s: int| 0 <= s < f.ids@.len() implies #[trigger] slot_of(events@, gn + 1, *f, s) by {
            assert(sampled_slot(events@, gn, count, *f, s));
        }
    }
    ts
}

/// The earliest samples of all nodes.
fn collect_firsts(events: &[TraceEvent]) -> (f: Firsts)
    requires
        profile_fits(events@),
    ensures
        firsts_of(events@, events@.len() as int, f),
{
    let n = events.len();
    let mut f = Firsts { ids: IdTable::new(), nodes: Vec::new(), times: Vec::new() };
    let mut pids = IdTable::new();
    let mut lasts: Vec<i128> = Vec::new();
    let mut i: usize = 0;
    while i < n
        invariant
            n == events@.len(),
            i <= n,
            profile_fits(events@),
            firsts_of(events@, i as int, f),
            pids.wf(),
            lasts@.len() == pids@.len(),
            forall|s: int|
                0 <= s < lasts@.len() ==> (#[trigger] lasts@[s]) == walk_time(
                    events@,
                    i as int,
                    pids@[s],
                ),
            forall|pid: u64|
                !pids@.contains(pid) ==> #[trigger] walk_time(events@, i as int, pid) == walk_time(
                    events@,
                    0,
                    pid,
                ),
        decreases n - i,
    {
        let e = &events[i];
        let ghost pids0 = pids@;
        let ghost lasts0 = lasts@;
        take_nodes(events, i, &mut f);
        let slot = pids.add(e.pid);
        if slot >= lasts.len() {
            let start: i128 = match find_start(events, e.pid) {
                Some(t) => t as i128,
                None => 0,
            };
            lasts.push(start);
            assert(start == walk_time(events@, i as int, e.pid));
        }
        let start: i128 = lasts[slot];
        assert(start == walk_time(events@, i as int, e.pid)) by {
            if slot < lasts0.len() {
                assert(lasts0[slot as int] == walk_time(events@, i as int, pids0[slot as int]));
            }
        }
        let end = take_samples(events, i, start, &mut f);
        lasts.set(slot, end);
        proof {
            assert forall|s: int| 0 <= s < lasts@.len() implies (#[trigger] lasts@[s]) == walk_time(
                events@,
                i + 1,
                pids@[s],
            ) by {
                if s != slot {
                    if pids@[s] == e.pid {
                        pids.lemma_distinct(s, slot as int);
                    }
                    assert(lasts0[s] == walk_time(events@, i as int, pids0[s]));
                    assert(pids@[s] == pids0[s]);
                }
            }
            assert forall|pid: u64| !pids@.contains(pid) implies #[trigger] walk_time(
                events@,
                i + 1,
                pid,
            ) == walk_time(events@, 0, pid) by {
                assert(pids@[slot as int] == e.pid);
                assert(!pids0.contains(pid)) by {
                    if pids0.contains(pid) {
                        let w = choose|w: int| 0 <= w < pids0.len() && pids0[w] == pid;
                        assert(pids@[w] == pid);
                    }
                }
                assert(walk_time(events@, i as int, pid) == walk_time(events@, 0, pid));
            }
        }
        i = i + 1;
    }
    f
}

/// The earliest of the nodes whose name, or address, matches.
fn best_node(events: &[TraceEvent], f: &Firsts, m: &Matcher, by_url: bool) -> (r: Option<Anchor>)
    requires
        firsts_of(events@, events@.len() as int, *f),
    ensures
        match r {
            Some(a) => !no_node(events@, *m, by_url) && node_anchor(events@, *m, by_url, a),
            None => no_node(events@, *m, by_url),
        },
{
    let ghost n = events@.len() as int;
    let count = f.ids.len();
    let mut best: Option<usize> = None;
    let mut i: usize = 0;
    while i < count
        invariant
            n == events@.len(),
            count == f.ids@.len(),
            i <= count,
            firsts_of(events@, n, *f),
            match best {
                Some(b) => b < i && node_candidate(events@, *m, by_url, f.ids@[b as int]),
                None => true,
            },
            forall|j: int|
                0 <= j < i && node_candidate(events@, *m, by_url, #[trigger] f.ids@[j]) ==> best is Some
                    && first_sample(events@, f.ids@[best->0 as int], n)->0 <= first_sample(
                    events@,
                    f.ids@[j],
                    n,
                )->0,
        decreases count - i,
    {
        assert(slot_of(events@, n, *f, i as int));
        if let Some(t) = f.times[i] {
            let node = &f.nodes[i];
            let text = if by_url {
                node.url.as_str()
            } else {
                node.name.as_str()
            };
            if m.matches(text) {
                assert(node_candidate(events@, *m, by_url, f.ids@[i as int]));
                let better = match best {
                    Some(b) => {
                        assert(slot_of(events@, n, *f, b as int));
                        match f.times[b] {
                            Some(u) => t < u,
                            None => true,
                        }
                    },
                    None => true,
                };
                if better {
                    best = Some(i);
                }
            }
        }
        i = i + 1;
    }
    proof {
        assert forall|id: u64| #[trigger] node_candidate(events@, *m, by_url, id) implies exists|j: int|
            0 <= j < count && #[trigger] f.ids@[j] == id by {
            assert(known(events@, id, n));
            assert(f.ids@.contains(id));
        }
    }
    match best {
        Some(b) => {
            let node = &f.nodes[b];
            let label = if by_url {
                node.url.clone()
            } else {
                node.name.clone()
            };
            let ghost id = f.ids@[b as int];
            proof {
                assert(slot_of(events@, n, *f, b as int));
                assert forall|other: u64| #[trigger]
                    node_candidate(events@, *m, by_url, other) implies first_sample(
                    events@,
                    id,
                    n,
                )->0 <= first_sample(events@, other, n)->0 by {
                    let j = choose|j: int| 0 <= j < count && #[trigger] f.ids@[j] == other;
                    assert(node_candidate(events@, *m, by_url, f.ids@[j]));
                }
                assert(earliest_node(events@, *m, by_url, id));
            }
            let ts: i128 = match f.times[b] {
                Some(t) => t,
                None => 0,
            };
            Some(Anchor { ts, kind: "cpu-profile", label })
        },
        None => {
            proof {
                assert forall|id: u64| !#[trigger] node_candidate(events@, *m, by_url, id) by {
                    if node_candidate(events@, *m, by_url, id) {
                        let j = choose|j: int| 0 <= j < count && #[trigger] f.ids@[j] == id;
                        assert(node_candidate(events@, *m, by_url, f.ids@[j]));
                    }
                }
            }
            None
        },
    }
}

/// Find the first occurrence of a pattern, by priority: calls of matching
/// functions, sampled nodes by name, then by address, then any arguments.
pub fn find_anchor(events: &[TraceEvent], m: &Matcher) -> (r: Option<Anchor>)
    requires
        profile_fits(events@),
    ensures
        anchor_of(events@, *m, r),
{
    let call = find_call(events, m);
    if call.is_some() {
        return call;
    }
    let f = collect_firsts(events);
    let by_name = best_node(events, &f, m, false);
    if by_name.is_some() {
        return by_name;
    }
    let by_url = best_node(events, &f, m, true);
    if by_url.is_some() {
        return by_url;
    }
    find_args(events, m)
}

/// A call of a matching function is preferred to whatever else matches.
pub proof fn lemma_calls_first(events: Seq<TraceEvent>, m: Matcher, a: Anchor, j: int)
    requires
        anchor_of(events, m, Some(a)),
        0 <= j < events.len(),
        is_call(m, events[j]),
    ensures
        a.kind@ == "FunctionCall"@,
        a.ts <= events[j].ts,
{
    assert(!no_call(events, m));
    let i = choose|i: int|
        #[trigger] earliest_call(events, m, i) && a.ts == events[i].ts && Some(a.label@)
            == function_name(events[i]);
    assert(earliest_call(events, m, i));
}

} // verus!
