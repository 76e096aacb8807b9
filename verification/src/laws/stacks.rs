//! What the lists of sampled functions, stacks and finds hold.

use vstd::prelude::*;
use crate::analysis::common::total;
use crate::analysis::cpu::{
    time_by_id,
    CpuProfileCache,
    NodeView,
    ProfileNode,
    ProfileNodes,
    ProfileSelfTimes,
};
use crate::compact::compact;
use crate::inspect::chain::{chain, chain_names, chain_up, ends, parents_in};
use crate::inspect::events::{shown_rows, sorted_events, Sort};
use crate::inspect::find::{
    around,
    find_row,
    finds_of,
    found_node,
    found_nodes,
    is_find,
    matching_nodes,
    node_keys,
    FindRow,
    FoundNode,
};
use crate::inspect::group::positions;
use crate::inspect::stacks::{
    function_row,
    functions_of,
    heaviest,
    is_leaf,
    leaf_keys,
    leaves,
    lemma_leaves_distinct,
    lemma_sampled_distinct,
    stack_row,
    stacks_of,
    wanted,
    wanted_time,
    FunctionList,
    StackList,
    StackRow,
};
use crate::laws::gc::in_scope;
use crate::laws::lists::{events_right, lemma_positions_all, lemma_sorted, lists_all};
use crate::laws::sums::{lemma_total_order, lemma_total_same};
use crate::matcher::{matches_text, value_has, Matcher};
use crate::scope::Scope;
use crate::sort::{comes_before, holds, orders};
use crate::text::after_slash;
use crate::trace::event::TraceEvent;

verus! {

/// A node is asked for: its function and its address match, as far as either
/// is to; a node that nothing is known of matches nothing.
pub open spec fn leaf_meant(n: Option<NodeView>, m: Option<&Matcher>, u: Option<&Matcher>) -> bool {
    &&& m matches Some(x) ==> n is Some && matches_text(*x, n->0.name)
    &&& u matches Some(x) ==> n is Some && matches_text(*x, n->0.url)
}

proof fn lemma_leaves(nodes: ProfileNodes, m: Option<&Matcher>, u: Option<&Matcher>, ids: Seq<u64>)
    ensures
        forall|i: int|
            0 <= i < leaves(nodes, m, u, ids).len() ==> ids.contains(#[trigger] leaves(nodes, m, u, ids)[i])
                && leaf_meant(nodes.node(leaves(nodes, m, u, ids)[i]), m, u),
        forall|i: int|
            0 <= i < ids.len() && leaf_meant(nodes.node(#[trigger] ids[i]), m, u) ==> leaves(
                nodes,
                m,
                u,
                ids,
            ).contains(ids[i]),
    decreases ids.len(),
{
    if ids.len() > 0 {
        let t = ids.drop_last();
        lemma_leaves(nodes, m, u, t);
        let before = leaves(nodes, m, u, t);
        let all = leaves(nodes, m, u, ids);
        assert(is_leaf(nodes, m, u, ids.last()) == leaf_meant(nodes.node(ids.last()), m, u));
        assert forall|i: int| 0 <= i < all.len() implies ids.contains(#[trigger] all[i]) && leaf_meant(
            nodes.node(all[i]),
            m,
            u,
        ) by {
            if i < before.len() {
                assert(all[i] == before[i]);
                let w = choose|w: int| 0 <= w < t.len() && t[w] == before[i];
                assert(ids[w] == all[i]);
            } else {
                assert(ids[ids.len() - 1] == all[i]);
            }
        }
        assert forall|i: int| 0 <= i < ids.len() && leaf_meant(nodes.node(#[trigger] ids[i]), m, u) implies all.contains(
            ids[i],
        ) by {
            if i < t.len() {
                assert(t[i] == ids[i]);
                assert(before.contains(t[i]));
                let w = choose|w: int| 0 <= w < before.len() && before[w] == t[i];
                assert(all[w] == ids[i]);
            } else {
                assert(all[before.len() as int] == ids[i]);
            }
        }
    }
}

/// A list of sampled nodes: exactly those with time that are asked for, each
/// once with its time, the most time first.
pub open spec fn leaves_right(
    c: CpuProfileCache,
    m: Option<&Matcher>,
    u: Option<&Matcher>,
    r: Seq<(u64, i128)>,
) -> bool {
    &&& forall|k: int|
        0 <= k < r.len() ==> (#[trigger] r[k]).1 == c.self_times.time(r[k].0) && r[k].1 > 0 && leaf_meant(
            c.nodes.node(r[k].0),
            m,
            u,
        )
    &&& forall|id: u64|
        #[trigger] c.self_times.time(id) > 0 && leaf_meant(c.nodes.node(id), m, u) ==> exists|k: int|
            0 <= k < r.len() && (#[trigger] r[k]).0 == id
    &&& forall|i: int, j: int|
        0 <= i < j < r.len() ==> (#[trigger] r[i]).0 != (#[trigger] r[j]).0 && r[i].1 >= r[j].1
}

proof fn lemma_heaviest(c: CpuProfileCache, m: Option<&Matcher>, u: Option<&Matcher>, r: Seq<(u64, i128)>)
    requires
        c.self_times.wf(),
        heaviest(c, m, u, r),
    ensures
        leaves_right(c, m, u, r),
        wanted_time(c, m, u) == total(r, |x: (u64, i128)| x.1 as int),
{
    let ids = wanted(c, m, u);
    let sampled = c.self_times.sampled();
    let o = choose|o: Seq<usize>|
        {
            &&& #[trigger] orders(leaf_keys(c, ids), true, o)
            &&& r.len() == o.len()
            &&& forall|k: int|
                0 <= k < r.len() ==> (#[trigger] r[k]).0 == ids[o[k] as int] && r[k].1
                    == c.self_times.time(r[k].0)
        };
    lemma_sampled_distinct(c.self_times);
    lemma_leaves_distinct(c.nodes, m, u, sampled);
    lemma_leaves(c.nodes, m, u, sampled);
    assert forall|k: int| 0 <= k < r.len() implies (#[trigger] r[k]).1 == c.self_times.time(r[k].0) && r[k].1 > 0
        && leaf_meant(c.nodes.node(r[k].0), m, u) by {
        assert(sampled.contains(ids[o[k] as int]));
        c.self_times.lemma_time_listed(r[k].0);
    }
    assert forall|id: u64| #[trigger] c.self_times.time(id) > 0 && leaf_meant(c.nodes.node(id), m, u) implies exists|
        k: int,
    | 0 <= k < r.len() && (#[trigger] r[k]).0 == id by {
        c.self_times.lemma_time_listed(id);
        let w = choose|w: int| 0 <= w < sampled.len() && sampled[w] == id;
        assert(ids.contains(sampled[w]));
        let n = choose|n: int| 0 <= n < ids.len() && ids[n] == id;
        assert(holds(o, n));
        let k = choose|k: int| 0 <= k < o.len() && #[trigger] o[k] == n;
        assert(r[k].0 == id);
    }
    let keys = leaf_keys(c, ids);
    assert forall|i: int, j: int| 0 <= i < j < r.len() implies (#[trigger] r[i]).0 != (#[trigger] r[j]).0 && r[i].1
        >= r[j].1 && o[i] != o[j] by {
        assert(comes_before(keys, true, o[i] as int, o[j] as int));
        let (x, y) = (o[i] as int, o[j] as int);
        assert(ids[x] != ids[y]) by {
            if x < y {
                assert(ids[x] != ids[y]);
            } else {
                assert(ids[y] != ids[x]);
            }
        }
        assert(keys[x] == r[i].1 && keys[y] == r[j].1);
    }
    let pairs = Seq::new(ids.len(), |i: int| (ids[i], c.self_times.time(ids[i]) as i128));
    let f = |x: (u64, i128)| x.1 as int;
    assert forall|i: int| 0 <= i < o.len() implies (#[trigger] o[i]) < pairs.len() && r[i] == pairs[o[i] as int] by {
        assert(r[i].0 == ids[o[i] as int]);
    }
    assert forall|i: int, j: int| 0 <= i < j < o.len() implies (#[trigger] o[i]) != (#[trigger] o[j]) by {
        assert(r[i].0 != r[j].0);
    }
    lemma_total_order(pairs, r, o, f);
    assert forall|i: int| 0 <= i < ids.len() implies time_by_id(c.self_times)(#[trigger] ids[i]) == f(pairs[i]) by {
        assert(holds(o, i));
        let k = choose|k: int| 0 <= k < o.len() && #[trigger] o[k] == i;
        assert(r[k] == pairs[i]);
    }
    lemma_mapped(ids, pairs, time_by_id(c.self_times), f);
    lemma_total_same(r, f, |x: (u64, i128)| x.1 as int);
}

proof fn lemma_mapped<A, B>(a: Seq<A>, b: Seq<B>, f: spec_fn(A) -> int, g: spec_fn(B) -> int)
    requires
        a.len() == b.len(),
        forall|i: int| 0 <= i < a.len() ==> f(#[trigger] a[i]) == g(b[i]),
    ensures
        total(a, f) == total(b, g),
    decreases a.len(),
{
    if a.len() > 0 {
        let (s, t) = (a.drop_last(), b.drop_last());
        assert forall|i: int| 0 <= i < s.len() implies f(#[trigger] s[i]) == g(t[i]) by {
            assert(s[i] == a[i]);
        }
        lemma_mapped(s, t, f, g);
        assert(f(a[a.len() - 1]) == g(b[b.len() - 1]));
    }
}

/// How a node is named: by its function, or as having none.
pub open spec fn told_name(n: Option<NodeView>, unknown: Seq<char>, name: Seq<char>) -> bool {
    match n {
        Some(v) => if v.name.len() > 0 {
            name == v.name
        } else {
            name == "(anonymous)"@
        },
        None => name == unknown,
    }
}

/// The address of a node, empty where nothing is known of it.
pub open spec fn told_url(n: Option<NodeView>, url: Seq<char>) -> bool {
    match n {
        Some(v) => url == v.url,
        None => url.len() == 0,
    }
}

/// The list of functions: the sampled nodes that are asked for, named, with
/// their times; what they take together; and what was sampled in all.
pub proof fn lemma_functions(c: CpuProfileCache, m: Matcher, u: Option<&Matcher>, l: FunctionList)
    requires
        c.self_times.wf(),
        functions_of(c, m, u, l),
    ensures
        l.all == c.self_times.sum(),
        exists|r: Seq<(u64, i128)>|
            {
                &&& #[trigger] leaves_right(c, Some(&m), u, r)
                &&& l.rows@.len() == r.len()
                &&& l.matched == total(r, |x: (u64, i128)| x.1 as int)
                &&& forall|k: int|
                    0 <= k < r.len() ==> (#[trigger] l.rows@[k]).time == r[k].1 && told_name(
                        c.nodes.node(r[k].0),
                        "(anonymous)"@,
                        l.rows@[k].function@,
                    ) && told_url(c.nodes.node(r[k].0), l.rows@[k].url@)
            },
{
    let r = choose|r: Seq<(u64, i128)>|
        {
            &&& #[trigger] heaviest(c, Some(&m), u, r)
            &&& l.rows@.len() == r.len()
            &&& forall|k: int| 0 <= k < r.len() ==> function_row(c, r[k], #[trigger] l.rows@[k])
        };
    lemma_heaviest(c, Some(&m), u, r);
    assert(leaves_right(c, Some(&m), u, r));
}

/// A stack of nodes: it ends at the leaf, begins at a node without a caller, and
/// each node calls the next.
pub open spec fn stack_right(nodes: ProfileNodes, leaf: u64, ids: Seq<u64>) -> bool {
    &&& ids.len() > 0
    &&& ids.last() == leaf
    &&& !(nodes.node(ids[0]) matches Some(v) && v.parent is Some)
    &&& forall|k: int|
        0 < k < ids.len() ==> (nodes.node(#[trigger] ids[k]) matches Some(v) && v.parent == Some(ids[k - 1]))
}

proof fn lemma_chain(nodes: ProfileNodes, id: u64, f: nat)
    ensures
        chain_up(parents_in(nodes), id, f) matches Some(ids) ==> stack_right(nodes, id, ids),
    decreases f,
{
    let parent = parents_in(nodes);
    if let Some(p) = parent(id) {
        if f > 0 {
            lemma_chain(nodes, p, (f - 1) as nat);
            if let Some(c) = chain_up(parent, p, (f - 1) as nat) {
                let ids = c.push(id);
                assert forall|k: int| 0 < k < ids.len() implies (nodes.node(#[trigger] ids[k]) matches Some(v)
                    && v.parent == Some(ids[k - 1])) by {
                    if k < c.len() {
                        assert(ids[k] == c[k] && ids[k - 1] == c[k - 1]);
                    } else {
                        assert(ids[k - 1] == c.last());
                    }
                }
                assert(ids[0] == c[0]);
            }
        }
    }
}

/// A row of the list of stacks: the time and the name of the leaf, the end of
/// its address, and the names from the root down to it.
pub open spec fn row_right(nodes: ProfileNodes, leaf: (u64, i128), r: StackRow) -> bool {
    &&& r.time == leaf.1
    &&& told_name(nodes.node(leaf.0), "(unknown)"@, r.leaf@)
    &&& exists|url: Seq<char>| #[trigger] told_url(nodes.node(leaf.0), url) && r.file@ == after_slash(url)
    &&& exists|ids: Seq<u64>|
        {
            &&& #[trigger] stack_right(nodes, leaf.0, ids)
            &&& r.stack@.len() == ids.len()
            &&& forall|k: int|
                0 <= k < ids.len() ==> told_name(nodes.node(ids[k]), "(unknown)"@, (#[trigger] r.stack@[k])@)
        }
}

/// The list of stacks: those of the sampled nodes that are asked for, no more
/// than `top`, the most time first; the count and the time are those of all.
pub proof fn lemma_stacks(c: CpuProfileCache, m: Option<&Matcher>, u: Option<&Matcher>, top: usize, l: StackList)
    requires
        c.self_times.wf(),
        forall|id: u64| c.self_times.time(id) > 0 ==> #[trigger] ends(parents_in(c.nodes), id),
        stacks_of(c, m, u, top, l),
    ensures
        exists|r: Seq<(u64, i128)>|
            {
                &&& #[trigger] leaves_right(c, m, u, r)
                &&& l.count == r.len()
                &&& l.time == total(r, |x: (u64, i128)| x.1 as int)
                &&& l.rows@.len() == if top < r.len() {
                    top as nat
                } else {
                    r.len()
                }
                &&& forall|k: int|
                    0 <= k < l.rows@.len() ==> row_right(c.nodes, r[k], #[trigger] l.rows@[k])
            },
{
    let r = choose|r: Seq<(u64, i128)>|
        {
            &&& #[trigger] heaviest(c, m, u, r)
            &&& l.count == r.len()
            &&& l.rows@.len() == shown_rows(top, r.len())
            &&& forall|k: int| 0 <= k < l.rows@.len() ==> stack_row(c, r[k], #[trigger] l.rows@[k])
        };
    lemma_heaviest(c, m, u, r);
    assert forall|k: int| 0 <= k < l.rows@.len() implies row_right(c.nodes, r[k], #[trigger] l.rows@[k]) by {
        let leaf = r[k].0;
        let row = l.rows@[k];
        assert(stack_row(c, r[k], row));
        assert(c.self_times.time(leaf) > 0);
        assert(ends(parents_in(c.nodes), leaf));
        let f = choose|f: nat| (#[trigger] chain_up(parents_in(c.nodes), leaf, f)) is Some;
        lemma_chain(c.nodes, leaf, f);
        let ids = chain(parents_in(c.nodes), leaf);
        assert(stack_right(c.nodes, leaf, ids));
        assert(chain_names(c.nodes, ids, row.stack@));
        assert(told_url(c.nodes.node(leaf), crate::analysis::cpu::node_url(c.nodes, leaf)));
    }
    assert(leaves_right(c, m, u, r));
}

/// The arguments of an event in scope hold a match.
pub open spec fn found(m: Matcher, scope: Scope) -> spec_fn(TraceEvent) -> bool {
    |e: TraceEvent| in_scope(scope, e) && e@.said() is Some && value_has(e@.said()->0, m)
}

/// What is found among the events: exactly the events in scope whose arguments
/// hold a match, each once, the earliest first; shown in full where that is
/// asked for.
pub proof fn lemma_finds(events: Seq<TraceEvent>, m: Matcher, scope: Scope, full: bool, rows: Seq<FindRow>)
    requires
        events.len() <= usize::MAX,
        finds_of(events, m, scope, full, rows),
    ensures
        events_right(events, found(m, scope), Seq::new(rows.len(), |k: int| rows[k].at)),
        forall|i: int, j: int|
            0 <= i < j < rows.len() ==> events[(#[trigger] rows[i]).at as int].ts <= events[(
            #[trigger] rows[j]).at as int].ts,
        full ==> forall|k: int|
            0 <= k < rows.len() ==> (#[trigger] rows[k]).snippet@ == compact(
                events[rows[k].at as int]@.said()->0,
            ),
{
    let q = choose|q: Seq<usize>|
        {
            &&& #[trigger] sorted_events(events, positions(events, is_find(m, scope)), Sort::Ts, q)
            &&& rows.len() == q.len()
            &&& forall|k: int| 0 <= k < rows.len() ==> find_row(events, q[k], m, full, #[trigger] rows[k])
        };
    let p = positions(events, is_find(m, scope));
    lemma_positions_all(events, is_find(m, scope));
    assert(lists_all(events, p, found(m, scope)));
    lemma_sorted(events, p, found(m, scope), Sort::Ts, q);
    assert(q =~= Seq::new(rows.len(), |k: int| rows[k].at));
    assert forall|i: int, j: int| 0 <= i < j < rows.len() implies events[(#[trigger] rows[i]).at as int].ts
        <= events[(#[trigger] rows[j]).at as int].ts by {
        assert(q[i] == rows[i].at && q[j] == rows[j].at);
    }
}

/// What is shown around a place is a part of the text that holds the place with
/// sixty characters on either side, or as many as there are.
pub proof fn lemma_around(s: Seq<char>, idx: int, len: int)
    requires
        0 <= idx,
        0 <= len,
        idx + len <= s.len(),
    ensures
        exists|before: Seq<char>, rest: Seq<char>|
            {
                &&& s == before + #[trigger] around(s, idx, len) + rest
                &&& #[trigger] before.len() + 60 == idx || before.len() == 0 && idx < 60
                &&& #[trigger] rest.len() == s.len() - idx - len - 60 || rest.len() == 0 && s.len() - idx - len
                    <= 60
            },
{
    let start = if idx < 60 {
        0
    } else {
        idx - 60
    };
    let end = if idx + len + 60 < s.len() {
        idx + len + 60
    } else {
        s.len() as int
    };
    let before = s.take(start);
    let rest = s.skip(end);
    assert(around(s, idx, len) == s.subrange(start, end));
    assert(s =~= before + around(s, idx, len) + rest);
}

proof fn lemma_matching(m: Matcher, list: Seq<ProfileNode>)
    requires
        list.len() <= usize::MAX,
    ensures
        forall|k: int|
            0 <= k < matching_nodes(m, list).len() ==> (#[trigger] matching_nodes(m, list)[k]) < list.len() && (
            matches_text(m, list[matching_nodes(m, list)[k] as int].name@) || matches_text(
                m,
                list[matching_nodes(m, list)[k] as int].url@,
            )),
        forall|i: int|
            0 <= i < list.len() && (matches_text(m, (#[trigger] list[i]).name@) || matches_text(m, list[i].url@))
                ==> holds(matching_nodes(m, list), i),
    decreases list.len(),
{
    if list.len() > 0 {
        let t = list.drop_last();
        lemma_matching(m, t);
        let before = matching_nodes(m, t);
        let p = matching_nodes(m, list);
        assert forall|k: int| 0 <= k < p.len() implies (#[trigger] p[k]) < list.len() && (matches_text(
            m,
            list[p[k] as int].name@,
        ) || matches_text(m, list[p[k] as int].url@)) by {
            if k < before.len() {
                assert(p[k] == before[k]);
                assert(t[before[k] as int] == list[p[k] as int]);
            }
        }
        assert forall|i: int| 0 <= i < list.len() && (matches_text(m, (#[trigger] list[i]).name@) || matches_text(
            m,
            list[i].url@,
        )) implies holds(p, i) by {
            if i < t.len() {
                assert(t[i] == list[i]);
                assert(holds(before, i));
                let w = choose|w: int| 0 <= w < before.len() && #[trigger] before[w] == i;
                assert(p[w] == i);
            } else {
                assert(p[before.len() as int] == i);
            }
        }
    }
}

/// The row tells of the node.
pub open spec fn tells_node(times: ProfileSelfTimes, n: ProfileNode, r: FoundNode) -> bool {
    &&& n.name@.len() > 0 ==> r.function@ == n.name@
    &&& n.name@.len() == 0 ==> r.function@ == "(anonymous)"@
    &&& r.url@ == n.url@
    &&& r.time == times.time(n.id)
}

/// What is found among the nodes: those whose function or address matches, with
/// their times, the most time first.
pub proof fn lemma_nodes(nodes: ProfileNodes, times: ProfileSelfTimes, m: Matcher, rows: Seq<FoundNode>)
    requires
        nodes.listed().len() <= usize::MAX,
        found_nodes(nodes, times, m, rows),
    ensures
        forall|i: int|
            0 <= i < nodes.listed().len() && (matches_text(m, (#[trigger] nodes.listed()[i]).name@) || matches_text(
                m,
                nodes.listed()[i].url@,
            )) ==> exists|k: int| 0 <= k < rows.len() && tells_node(times, nodes.listed()[i], #[trigger] rows[k]),
        forall|k: int| 0 <= k < rows.len() ==> tells_matching(nodes, times, m, #[trigger] rows[k]),
        forall|i: int, j: int| 0 <= i < j < rows.len() ==> (#[trigger] rows[i]).time >= (#[trigger] rows[j]).time,
{
    let list = nodes.listed();
    let p = matching_nodes(m, list);
    let o = choose|o: Seq<usize>|
        {
            &&& #[trigger] orders(node_keys(nodes, times, p), true, o)
            &&& rows.len() == o.len()
            &&& forall|k: int|
                0 <= k < rows.len() ==> found_node(nodes, times, p[o[k] as int], #[trigger] rows[k])
        };
    lemma_matching(m, list);
    assert forall|i: int| 0 <= i < list.len() && (matches_text(m, (#[trigger] list[i]).name@) || matches_text(
        m,
        list[i].url@,
    )) implies exists|k: int| 0 <= k < rows.len() && tells_node(times, list[i], #[trigger] rows[k]) by {
        assert(holds(p, i));
        let w = choose|w: int| 0 <= w < p.len() && #[trigger] p[w] == i;
        assert(holds(o, w));
        let k = choose|k: int| 0 <= k < o.len() && #[trigger] o[k] == w;
        assert(tells_node(times, list[i], rows[k]));
    }
    assert forall|k: int| 0 <= k < rows.len() implies tells_matching(nodes, times, m, #[trigger] rows[k]) by {
        let i = p[o[k] as int] as int;
        assert(tells_node(times, list[i], rows[k]));
    }
    assert forall|i: int, j: int| 0 <= i < j < rows.len() implies (#[trigger] rows[i]).time >= (
    #[trigger] rows[j]).time by {
        let keys = node_keys(nodes, times, p);
        assert(comes_before(keys, true, o[i] as int, o[j] as int));
        assert(keys[o[i] as int] == rows[i].time && keys[o[j] as int] == rows[j].time);
    }
}

/// The row tells of a node that matches.
pub open spec fn tells_matching(nodes: ProfileNodes, times: ProfileSelfTimes, m: Matcher, r: FoundNode) -> bool {
    exists|i: int|
        {
            &&& 0 <= i < nodes.listed().len()
            &&& matches_text(m, (#[trigger] nodes.listed()[i]).name@) || matches_text(m, nodes.listed()[i].url@)
            &&& tells_node(times, nodes.listed()[i], r)
        }
}

} // verus!
