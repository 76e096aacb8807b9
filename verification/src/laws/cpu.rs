//! What the samples of a profile weigh, and whose time that is.

use vstd::prelude::*;
use crate::analysis::common::total;
use crate::analysis::cpu::{
    chunk_nodes,
    chunk_samples,
    chunk_time,
    first_in,
    function_of,
    id_times,
    node_of,
    node_view,
    nodes_of,
    profile_result,
    sample_count,
    self_time,
    source_of,
    time_by_id,
    times_of,
    CpuProfileResult,
    FunctionTime,
    NodeView,
    ProfileNodes,
    ProfileSelfTimes,
    SourceType,
};
use crate::json::{items_opt, member_opt, str_opt, ticks_opt, u64_opt, JsonView};
use crate::laws::sums::lemma_total_order;
use crate::scope::Scope;
use crate::sort::{comes_before, orders};
use crate::text::has_sub;
use crate::trace::event::TraceEvent;

verus! {

/// The items of an array that may be missing.
pub open spec fn items_in(j: Option<JsonView>) -> Seq<JsonView> {
    match items_opt(j) {
        Some(s) => s,
        None => Seq::empty(),
    }
}

/// The samples that a chunk lists: the nodes that were running.
pub open spec fn samples_told(e: TraceEvent) -> Seq<JsonView> {
    items_in(
        member_opt(member_opt(member_opt(e@.said(), "data"@), "cpuProfile"@), "samples"@),
    )
}

/// The times between the samples.
pub open spec fn gaps_told(e: TraceEvent) -> Seq<JsonView> {
    items_in(member_opt(member_opt(e@.said(), "data"@), "timeDeltas"@))
}

/// What the first `k` samples of a node weigh: the times before them, those
/// that are more than nothing.
pub open spec fn weighs(samples: Seq<JsonView>, gaps: Seq<JsonView>, id: u64, k: int) -> int
    decreases k,
{
    if k <= 0 {
        0
    } else {
        weighs(samples, gaps, id, k - 1) + match ticks_opt(Some(gaps[k - 1])) {
            Some(t) => if t > 0 && id == (match u64_opt(Some(samples[k - 1])) {
                Some(n) => n,
                None => 0u64,
            }) {
                t as int
            } else {
                0
            },
            None => 0,
        }
    }
}

/// What the samples of a chunk weigh for a node; nothing where the event is no
/// chunk.
pub open spec fn chunk_weighs(e: TraceEvent, id: u64) -> int {
    let s = samples_told(e);
    let g = gaps_told(e);
    if e.name@ == "ProfileChunk"@ {
        weighs(
            s,
            g,
            id,
            if s.len() < g.len() {
                s.len() as int
            } else {
                g.len() as int
            },
        )
    } else {
        0
    }
}

proof fn lemma_chunk(events: Seq<TraceEvent>, i: int, id: u64, k: int)
    requires
        0 <= i < events.len(),
        events[i].name@ == "ProfileChunk"@,
        k <= samples_told(events[i]).len(),
        k <= gaps_told(events[i]).len(),
    ensures
        chunk_time(events, i, None, id, k) == weighs(
            samples_told(events[i]),
            gaps_told(events[i]),
            id,
            k,
        ),
    decreases k,
{
    if k > 0 {
        lemma_chunk(events, i, id, k - 1);
    }
}

proof fn lemma_other_event(events: Seq<TraceEvent>, i: int, window: Option<(i64, i64)>, id: u64)
    requires
        0 <= i < events.len(),
        events[i].name@ != "ProfileChunk"@,
    ensures
        chunk_time(events, i, window, id, sample_count(events[i]) as int) == 0,
{
    assert(chunk_samples(events[i]).len() == 0);
}

proof fn lemma_one(events: Seq<TraceEvent>, i: int, id: u64)
    requires
        0 <= i < events.len(),
    ensures
        chunk_time(events, i, None, id, sample_count(events[i]) as int) == chunk_weighs(events[i], id),
{
    if events[i].name@ == "ProfileChunk"@ {
        lemma_chunk(events, i, id, sample_count(events[i]) as int);
    } else {
        lemma_other_event(events, i, None, id);
    }
}

proof fn lemma_self(events: Seq<TraceEvent>, id: u64, n: int)
    requires
        0 <= n <= events.len(),
    ensures
        self_time(events, None, None, id, 0, n) == total(
            events.take(n),
            |e: TraceEvent| chunk_weighs(e, id),
        ),
    decreases n,
{
    if n > 0 {
        lemma_self(events, id, n - 1);
        lemma_one(events, n - 1, id);
        assert(events.take(n).drop_last() =~= events.take(n - 1));
    } else {
        assert(events.take(0) =~= Seq::<TraceEvent>::empty());
    }
}

/// A chunk adds to the self-time of each node what its samples of that node
/// weigh, and an event that is no chunk adds nothing, wherever it stands.
pub proof fn lemma_chunk_adds(
    events: Seq<TraceEvent>,
    k: int,
    e: TraceEvent,
    a: ProfileSelfTimes,
    b: ProfileSelfTimes,
    id: u64,
)
    requires
        0 <= k <= events.len(),
        times_of(events, None, None, events.len() as int, a),
        times_of(events.insert(k, e), None, None, events.len() as int + 1, b),
    ensures
        b.time(id) == a.time(id) + chunk_weighs(e, id),
{
    let more = events.insert(k, e);
    let f = |e: TraceEvent| chunk_weighs(e, id);
    lemma_self(events, id, events.len() as int);
    lemma_self(more, id, more.len() as int);
    assert(events.take(events.len() as int) =~= events);
    assert(more.take(more.len() as int) =~= more);
    crate::laws::sums::lemma_total_insert(events, k, e, f);
    assert(a.time(id) == self_time(events, None, None, id, 0, events.len() as int));
    assert(b.time(id) == self_time(more, None, None, id, 0, more.len() as int));
}

proof fn lemma_chunk_windows(
    events: Seq<TraceEvent>,
    i: int,
    lo: i64,
    mid: i64,
    hi: i64,
    id: u64,
    k: int,
)
    requires
        lo <= mid < hi,
    ensures
        chunk_time(events, i, Some((lo, mid)), id, k) + chunk_time(
            events,
            i,
            Some(((mid + 1) as i64, hi)),
            id,
            k,
        ) == chunk_time(events, i, Some((lo, hi)), id, k),
        0 <= chunk_time(events, i, Some((lo, hi)), id, k) <= chunk_time(events, i, None, id, k),
    decreases k,
{
    if k > 0 {
        lemma_chunk_windows(events, i, lo, mid, hi, id, k - 1);
    }
}

proof fn lemma_self_windows(
    events: Seq<TraceEvent>,
    scope: Option<Scope>,
    lo: i64,
    mid: i64,
    hi: i64,
    id: u64,
    n: int,
)
    requires
        lo <= mid < hi,
    ensures
        self_time(events, scope, Some((lo, mid)), id, 0, n) + self_time(
            events,
            scope,
            Some(((mid + 1) as i64, hi)),
            id,
            0,
            n,
        ) == self_time(events, scope, Some((lo, hi)), id, 0, n),
        self_time(events, scope, Some((lo, hi)), id, 0, n) <= self_time(
            events,
            scope,
            None,
            id,
            0,
            n,
        ),
    decreases n,
{
    if n > 0 {
        lemma_self_windows(events, scope, lo, mid, hi, id, n - 1);
        lemma_chunk_windows(events, n - 1, lo, mid, hi, id, sample_count(events[n - 1]) as int);
    }
}

/// Two windows that adjoin hold together what the window of both holds, and no
/// window holds more than the whole trace.
pub proof fn lemma_windows_add(
    events: Seq<TraceEvent>,
    scope: Option<Scope>,
    lo: i64,
    mid: i64,
    hi: i64,
    a: ProfileSelfTimes,
    b: ProfileSelfTimes,
    both: ProfileSelfTimes,
    all: ProfileSelfTimes,
    id: u64,
)
    requires
        lo <= mid < hi,
        times_of(events, scope, Some((lo, mid)), events.len() as int, a),
        times_of(events, scope, Some(((mid + 1) as i64, hi)), events.len() as int, b),
        times_of(events, scope, Some((lo, hi)), events.len() as int, both),
        times_of(events, scope, None, events.len() as int, all),
    ensures
        a.time(id) + b.time(id) == both.time(id),
        both.time(id) <= all.time(id),
{
    let n = events.len() as int;
    lemma_self_windows(events, scope, lo, mid, hi, id, n);
    assert(a.time(id) == self_time(events, scope, Some((lo, mid)), id, 0, n));
    assert(b.time(id) == self_time(events, scope, Some(((mid + 1) as i64, hi)), id, 0, n));
    assert(both.time(id) == self_time(events, scope, Some((lo, hi)), id, 0, n));
    assert(all.time(id) == self_time(events, scope, None, id, 0, n));
}

/// The functions come with most time first; their times together are the time
/// of all samples, and so are those of application, libraries and native code.
pub proof fn lemma_profile_adds_up(nodes: ProfileNodes, times: ProfileSelfTimes, r: CpuProfileResult)
    requires
        times.wf(),
        profile_result(nodes, times, r),
    ensures
        r.total_sample_time == total(r.functions@, |f: FunctionTime| f.self_time as int),
        r.app_time + r.runtime_time + r.native_time == r.total_sample_time,
        forall|i: int, j: int|
            0 <= i < j < r.functions@.len() ==> (#[trigger] r.functions@[i]).self_time >= (
            #[trigger] r.functions@[j]).self_time,
        forall|id: u64| #[trigger] times.time(id) > 0 ==> times.sampled().contains(id),
{
    let ids = times.sampled();
    let p = choose|p: Seq<usize>|
        {
            &&& #[trigger] orders(id_times(times), true, p)
            &&& r.functions@.len() == p.len()
            &&& forall|i: int|
                0 <= i < p.len() ==> function_of(
                    nodes,
                    times,
                    ids[p[i] as int],
                    #[trigger] r.functions@[i],
                )
        };
    crate::analysis::cpu::lemma_sources_add_up(nodes, times, ids);
    let picked = Seq::new(p.len(), |i: int| ids[p[i] as int]);
    assert(id_times(times).len() == ids.len());
    lemma_total_order(ids, picked, p, time_by_id(times));
    let f = |x: FunctionTime| x.self_time as int;
    lemma_mapped(picked, r.functions@, time_by_id(times), f);
    assert forall|i: int, j: int| 0 <= i < j < r.functions@.len() implies (
    #[trigger] r.functions@[i]).self_time >= (#[trigger] r.functions@[j]).self_time by {
        assert(comes_before(id_times(times), true, p[i] as int, p[j] as int));
        assert(function_of(nodes, times, ids[p[i] as int], r.functions@[i]));
        assert(function_of(nodes, times, ids[p[j] as int], r.functions@[j]));
    }
    assert forall|id: u64| #[trigger] times.time(id) > 0 implies times.sampled().contains(id) by {
        times.lemma_time_listed(id);
    }
}

proof fn lemma_mapped(
    ids: Seq<u64>,
    fs: Seq<FunctionTime>,
    f: spec_fn(u64) -> int,
    g: spec_fn(FunctionTime) -> int,
)
    requires
        ids.len() == fs.len(),
        forall|i: int| 0 <= i < ids.len() ==> f(#[trigger] ids[i]) == g(fs[i]),
    ensures
        total(ids, f) == total(fs, g),
    decreases ids.len(),
{
    if ids.len() > 0 {
        let a = ids.drop_last();
        let b = fs.drop_last();
        assert forall|i: int| 0 <= i < a.len() implies f(#[trigger] a[i]) == g(b[i]) by {
            assert(a[i] == ids[i]);
        }
        lemma_mapped(a, b, f, g);
        assert(f(ids[ids.len() - 1]) == g(fs[fs.len() - 1]));
    }
}

/// Code without an address is native. An address that names a package folder, a
/// framework, a polyfill, a bundle or a minified file is that of a library, and
/// any other that of the application.
pub proof fn lemma_sources(url: Seq<char>, lower: Seq<char>)
    ensures
        url.len() == 0 ==> source_of(url, lower) == SourceType::Native,
        url.len() > 0 && (has_sub(lower, "node_modules"@) || has_sub(lower, "svelte"@) || has_sub(
            lower,
            "react"@,
        ) || has_sub(lower, "vue"@) || has_sub(lower, "angular"@) || has_sub(lower, "polyfill"@)
            || has_sub(lower, "vendor"@) || has_sub(lower, "chunk-"@) || has_sub(lower, ".min."@))
            ==> source_of(url, lower) == SourceType::Runtime,
        url.len() > 0 && !(has_sub(lower, "node_modules"@) || has_sub(lower, "svelte"@) || has_sub(
            lower,
            "react"@,
        ) || has_sub(lower, "vue"@) || has_sub(lower, "angular"@) || has_sub(lower, "polyfill"@)
            || has_sub(lower, "vendor"@) || has_sub(lower, "chunk-"@) || has_sub(lower, ".min."@))
            ==> source_of(url, lower) == SourceType::AppCode,
{
}

/// The nodes that a chunk describes.
pub open spec fn nodes_told(e: TraceEvent) -> Seq<JsonView> {
    items_in(member_opt(member_opt(member_opt(e@.said(), "data"@), "cpuProfile"@), "nodes"@))
}

/// What a node is described as: its id, the function and the address of its
/// call frame, and its parent.
pub open spec fn describes(j: JsonView, v: NodeView) -> bool {
    let frame = member_opt(Some(j), "callFrame"@);
    &&& v.id == match u64_opt(member_opt(Some(j), "id"@)) {
        Some(n) => n,
        None => 0,
    }
    &&& str_opt(member_opt(frame, "functionName"@)) matches Some(name) ==> v.name == name
    &&& str_opt(member_opt(frame, "functionName"@)) is None ==> v.name == "(anonymous)"@
    &&& str_opt(member_opt(frame, "url"@)) matches Some(url) ==> v.url == url
    &&& str_opt(member_opt(frame, "url"@)) is None ==> v.url.len() == 0
    &&& v.parent == u64_opt(member_opt(Some(j), "parent"@))
}

/// Node `y` of the chunk that is event `x` describes the node.
pub open spec fn described_at(events: Seq<TraceEvent>, x: int, y: int, v: NodeView) -> bool {
    &&& 0 <= x < events.len()
    &&& events[x].name@ == "ProfileChunk"@
    &&& 0 <= y < nodes_told(events[x]).len()
    &&& describes(nodes_told(events[x])[y], v)
}

proof fn lemma_first_in(nodes: Seq<JsonView>, id: u64)
    ensures
        first_in(nodes, id) matches Some(v) ==> v.id == id && exists|y: int|
            0 <= y < nodes.len() && describes(#[trigger] nodes[y], v) && forall|z: int|
                0 <= z < y ==> node_view(#[trigger] nodes[z]).id != id,
        first_in(nodes, id) is None ==> forall|z: int|
            0 <= z < nodes.len() ==> node_view(#[trigger] nodes[z]).id != id,
    decreases nodes.len(),
{
    if nodes.len() > 0 {
        let rest = nodes.drop_last();
        lemma_first_in(rest, id);
        if let Some(v) = first_in(rest, id) {
            let y = choose|y: int|
                0 <= y < rest.len() && describes(#[trigger] rest[y], v) && forall|z: int|
                    0 <= z < y ==> node_view(#[trigger] rest[z]).id != id;
            assert(describes(nodes[y], v));
            assert forall|z: int| 0 <= z < y implies node_view(#[trigger] nodes[z]).id != id by {
                assert(rest[z] == nodes[z]);
            }
        } else {
            assert forall|z: int| 0 <= z < nodes.len() - 1 implies node_view(
                #[trigger] nodes[z],
            ).id != id by {
                assert(rest[z] == nodes[z]);
            }
            if let Some(v) = first_in(nodes, id) {
                assert(describes(nodes[nodes.len() - 1], v));
            }
        }
    }
}

proof fn lemma_node(events: Seq<TraceEvent>, id: u64, n: int)
    requires
        0 <= n <= events.len(),
    ensures
        node_of(events, id, 0, n) matches Some(v) ==> v.id == id && exists|x: int, y: int|
            x < n && #[trigger] described_at(events, x, y, v),
        node_of(events, id, 0, n) is None ==> forall|x: int, y: int, v: NodeView|
            x < n && v.id == id ==> !#[trigger] described_at(events, x, y, v),
    decreases n,
{
    if n > 0 {
        lemma_node(events, id, n - 1);
        let e = events[n - 1];
        lemma_first_in(chunk_nodes(e), id);
        if let Some(v) = node_of(events, id, 0, n - 1) {
            let (x, y) = choose|x: int, y: int| x < n - 1 && #[trigger] described_at(events, x, y, v);
            assert(x < n && described_at(events, x, y, v));
        } else {
            if let Some(v) = first_in(chunk_nodes(e), id) {
                let y = choose|y: int|
                    0 <= y < chunk_nodes(e).len() && describes(#[trigger] chunk_nodes(e)[y], v)
                        && forall|z: int|
                        0 <= z < y ==> node_view(#[trigger] chunk_nodes(e)[z]).id != id;
                assert(described_at(events, n - 1, y, v));
            } else {
                assert forall|x: int, y: int, v: NodeView| x < n && v.id == id implies !#[trigger] described_at(
                    events,
                    x,
                    y,
                    v,
                ) by {
                    if described_at(events, x, y, v) && x == n - 1 {
                        assert(node_view(chunk_nodes(e)[y]).id != id);
                    }
                }
            }
        }
    }
}

/// A node is known exactly where a chunk describes it, and as some chunk does.
pub proof fn lemma_nodes_described(events: Seq<TraceEvent>, t: ProfileNodes, id: u64)
    requires
        nodes_of(events, events.len() as int, t),
    ensures
        t.node(id) matches Some(v) ==> v.id == id && exists|x: int, y: int| #[trigger]
            described_at(events, x, y, v),
        t.node(id) is None ==> forall|x: int, y: int, v: NodeView|
            v.id == id ==> !#[trigger] described_at(events, x, y, v),
{
    lemma_node(events, id, events.len() as int);
    assert(t.node(id) == node_of(events, id, 0, events.len() as int));
    if let Some(v) = t.node(id) {
        let (x, y) = choose|x: int, y: int|
            x < events.len() && #[trigger] described_at(events, x, y, v);
        assert(described_at(events, x, y, v));
    } else {
        assert forall|x: int, y: int, v: NodeView| v.id == id implies !#[trigger] described_at(
            events,
            x,
            y,
            v,
        ) by {
            if described_at(events, x, y, v) {
                assert(x < events.len());
            }
        }
    }
}

} // verus!
