//! Call chains: from the root of a profile's tree down to a node.

use vstd::prelude::*;
use vstd::set_lib::{lemma_int_range, lemma_len_subset, set_int_range};
use crate::analysis::cpu::{
    node_of,
    nodes_of,
    profile_fits,
    scan_profile_chunks,
    self_time,
    NodeView,
    ProfileNodes,
};
use crate::scope::Scope;
use crate::trace::event::TraceEvent;
use crate::windowed::calltree::{
    find_depth,
    lemma_more_fuel,
    parent_place,
    parents_ok,
    shown_name,
    steps_up,
    up,
};

verus! {

/// The parent of a node.
pub open spec fn parent_of(n: Option<NodeView>) -> Option<u64> {
    match n {
        Some(v) => v.parent,
        None => None,
    }
}

/// The parents in a table of nodes.
pub open spec fn parents_in(nodes: ProfileNodes) -> spec_fn(u64) -> Option<u64> {
    |id: u64| parent_of(nodes.node(id))
}

/// The parents in a trace.
pub open spec fn parents_traced(events: Seq<TraceEvent>) -> spec_fn(u64) -> Option<u64> {
    |id: u64| parent_of(node_of(events, id, 0, events.len() as int))
}

/// The nodes from the root down to `id`; `None` when `fuel` steps up do not
/// reach a root.
pub open spec fn chain_up(parent: spec_fn(u64) -> Option<u64>, id: u64, fuel: nat) -> Option<Seq<u64>>
    decreases fuel,
{
    match parent(id) {
        None => Some(seq![id]),
        Some(p) => if fuel == 0 {
            None
        } else {
            match chain_up(parent, p, (fuel - 1) as nat) {
                Some(c) => Some(c.push(id)),
                None => None,
            }
        },
    }
}

/// The parents of a node lead to a root, and not in a circle.
pub open spec fn ends(parent: spec_fn(u64) -> Option<u64>, id: u64) -> bool {
    exists|f: nat| (#[trigger] chain_up(parent, id, f)) is Some
}

/// The nodes from the root down to `id`.
pub open spec fn chain(parent: spec_fn(u64) -> Option<u64>, id: u64) -> Seq<u64> {
    let f = choose|f: nat| (#[trigger] chain_up(parent, id, f)) is Some;
    chain_up(parent, id, f)->0
}

/// However much fuel there is, the chain is the same.
pub proof fn lemma_chain_fuel(parent: spec_fn(u64) -> Option<u64>, id: u64, f: nat, g: nat)
    requires
        chain_up(parent, id, f) is Some,
        chain_up(parent, id, g) is Some,
    ensures
        chain_up(parent, id, f) == chain_up(parent, id, g),
    decreases f,
{
    if let Some(p) = parent(id) {
        lemma_chain_fuel(parent, p, (f - 1) as nat, (g - 1) as nat);
    }
}

/// The name of a node in a chain.
pub open spec fn link_name(n: Option<NodeView>) -> Seq<char> {
    match n {
        Some(v) => shown_name(v.name),
        None => "(unknown)"@,
    }
}

/// `names` are the names of the nodes of a chain.
pub open spec fn chain_names(nodes: ProfileNodes, ids: Seq<u64>, names: Seq<String>) -> bool {
    &&& names.len() == ids.len()
    &&& forall|k: int| 0 <= k < ids.len() ==> (#[trigger] names[k])@ == link_name(nodes.node(ids[k]))
}

/// The name of a node: told where it has none, or is not known.
pub fn link_text(nodes: &ProfileNodes, id: u64) -> (r: String)
    requires
        nodes.wf(),
    ensures
        r@ == link_name(nodes.node(id)),
{
    match nodes.get(id) {
        Some(n) => if n.name.as_str().is_empty() {
            "(anonymous)".to_owned()
        } else {
            n.name.clone()
        },
        None => "(unknown)".to_owned(),
    }
}

/// The names from the root down to the node.
pub fn node_chain_names(nodes: &ProfileNodes, leaf: u64) -> (names: Vec<String>)
    requires
        nodes.wf(),
        ends(parents_in(*nodes), leaf),
    ensures
        chain_names(*nodes, chain(parents_in(*nodes), leaf), names@),
        names@.len() > 0,
{
    let ghost parent = parents_in(*nodes);
    let ghost fuel = choose|f: nat| (#[trigger] chain_up(parent, leaf, f)) is Some;
    let ghost whole = chain(parent, leaf);
    let ghost mut left: nat = fuel;
    let mut ids: Vec<u64> = Vec::new();
    let mut cur: u64 = leaf;
    let mut at_root = false;
    while !at_root
        invariant
            nodes.wf(),
            parent == parents_in(*nodes),
            !at_root ==> chain_up(parent, cur, left) is Some,
            !at_root ==> whole.len() == chain_up(parent, cur, left)->0.len() + ids@.len(),
            !at_root ==> whole.take(whole.len() - ids@.len()) == chain_up(parent, cur, left)->0,
            at_root ==> whole.len() == ids@.len(),
            ids@.len() <= whole.len(),
            forall|k: int| 0 <= k < ids@.len() ==> #[trigger] ids@[k] == whole[whole.len() - 1 - k],
            at_root ==> ids@.len() > 0,
        decreases left + (if at_root {
            0int
        } else {
            1
        }),
    {
        let ghost c = chain_up(parent, cur, left)->0;
        proof {
            assert(c.last() == cur);
            assert(whole[whole.len() - 1 - ids@.len()] == whole.take(
                whole.len() - ids@.len(),
            ).last());
        }
        ids.push(cur);
        let next = match nodes.get(cur) {
            Some(n) => n.parent,
            None => None,
        };
        assert(next == parent(cur));
        match next {
            Some(p) => {
                proof {
                    left = (left - 1) as nat;
                    let c2 = chain_up(parent, p, left)->0;
                    assert(c == c2.push(cur));
                    assert(whole.take(whole.len() - ids@.len()) =~= c2) by {
                        assert(whole.take(whole.len() - ids@.len()) =~= c.drop_last());
                    }
                }
                cur = p;
            },
            None => {
                at_root = true;
            },
        }
    }
    let mut names: Vec<String> = Vec::new();
    let mut k: usize = ids.len();
    while k > 0
        invariant
            nodes.wf(),
            k <= ids@.len(),
            ids@.len() == whole.len(),
            names@.len() == ids@.len() - k,
            forall|j: int| 0 <= j < ids@.len() ==> #[trigger] ids@[j] == whole[whole.len() - 1 - j],
            forall|j: int|
                0 <= j < names@.len() ==> (#[trigger] names@[j])@ == link_name(nodes.node(whole[j])),
        decreases k,
    {
        k = k - 1;
        assert(ids@[k as int] == whole[whole.len() - 1 - k]);
        names.push(link_text(nodes, ids[k]));
    }
    names
}

/// The time of the samples of a scope that end in a node.
pub open spec fn time_in_scope(events: Seq<TraceEvent>, scope: Scope, id: u64) -> int {
    self_time(events, Some(scope), scope.window, id, 0, events.len() as int)
}

/// The parents of every node that was sampled in the scope lead to a root.
pub open spec fn tree_shaped(events: Seq<TraceEvent>, scope: Scope) -> bool {
    forall|id: u64|
        #[trigger] time_in_scope(events, scope, id) > 0 ==> ends(parents_traced(events), id)
}

/// The table of a trace's nodes knows the same parents.
pub proof fn lemma_same_parents(events: Seq<TraceEvent>, nodes: ProfileNodes)
    requires
        nodes_of(events, events.len() as int, nodes),
    ensures
        parents_in(nodes) == parents_traced(events),
{
    assert(parents_in(nodes) =~= parents_traced(events));
}

/// What leads to a root by places does so by ids.
proof fn lemma_place_ends(nodes: ProfileNodes, parent: Seq<Option<usize>>, i: int, f: nat)
    requires
        nodes.wf(),
        parents_ok(parent),
        parent.len() == nodes.listed().len(),
        forall|k: int|
            0 <= k < parent.len() ==> parent_place(nodes.listed(), k, #[trigger] parent[k]),
        0 <= i < parent.len(),
        steps_up(parent, i, f) is Some,
    ensures
        chain_up(parents_in(nodes), nodes.listed()[i].id, f + 1) is Some,
    decreases f,
{
    let list = nodes.listed();
    nodes.lemma_listed(i);
    assert(parent_place(list, i, parent[i]));
    match list[i].parent {
        Some(p) => {
            assert(parents_in(nodes)(list[i].id) == Some(p));
            match parent[i] {
                Some(k) => {
                    lemma_place_ends(nodes, parent, k as int, (f - 1) as nat);
                    assert(list[k as int].id == p);
                },
                None => {
                    nodes.lemma_unlisted(p);
                    assert(parents_in(nodes)(p) is None);
                    assert(chain_up(parents_in(nodes), p, f) is Some);
                },
            }
        },
        None => {
            assert(parents_in(nodes)(list[i].id) is None);
        },
    }
}

/// What leads to a root by ids does so by places.
proof fn lemma_ends_place(nodes: ProfileNodes, parent: Seq<Option<usize>>, i: int, f: nat)
    requires
        nodes.wf(),
        parents_ok(parent),
        parent.len() == nodes.listed().len(),
        forall|k: int|
            0 <= k < parent.len() ==> parent_place(nodes.listed(), k, #[trigger] parent[k]),
        0 <= i < parent.len(),
        chain_up(parents_in(nodes), nodes.listed()[i].id, f) is Some,
    ensures
        steps_up(parent, i, f) is Some,
    decreases f,
{
    let list = nodes.listed();
    nodes.lemma_listed(i);
    assert(parent_place(list, i, parent[i]));
    if let Some(k) = parent[i] {
        let p = list[i].parent->0;
        assert(parents_in(nodes)(list[i].id) == Some(p));
        assert(list[k as int].id == p);
        lemma_ends_place(nodes, parent, k as int, (f - 1) as nat);
    }
}

/// The node `s` steps above one that is `d` steps from its root is `d - s`
/// steps from it.
proof fn lemma_up_steps(parent: Seq<Option<usize>>, i: int, f: nat, s: nat)
    requires
        parents_ok(parent),
        0 <= i < parent.len(),
        steps_up(parent, i, f) is Some,
        s <= steps_up(parent, i, f)->0,
    ensures
        0 <= up(parent, i, s) < parent.len(),
        steps_up(parent, up(parent, i, s), f) == Some((steps_up(parent, i, f)->0 - s) as nat),
    decreases s,
{
    if s > 0 {
        let q = parent[i]->0 as int;
        lemma_more_fuel(parent, q, (f - 1) as nat, f);
        lemma_up_steps(parent, q, f, (s - 1) as nat);
    }
}

/// A root is fewer steps away than there are nodes.
proof fn lemma_few_steps(parent: Seq<Option<usize>>, i: int, f: nat)
    requires
        parents_ok(parent),
        0 <= i < parent.len(),
        steps_up(parent, i, f) is Some,
    ensures
        steps_up(parent, i, f)->0 < parent.len(),
{
    let d = steps_up(parent, i, f)->0;
    let path = Seq::new(d + 1, |s: int| up(parent, i, s as nat));
    assert forall|a: int, b: int| 0 <= a < path.len() && 0 <= b < path.len() && a != b implies path[a]
        != path[b] by {
        lemma_up_steps(parent, i, f, a as nat);
        lemma_up_steps(parent, i, f, b as nat);
    }
    path.unique_seq_to_set();
    let all = set_int_range(0, parent.len() as int);
    lemma_int_range(0, parent.len() as int);
    assert forall|x: int| #[trigger] path.to_set().contains(x) implies all.contains(x) by {
        let s = choose|s: int| 0 <= s < path.len() && path[s] == x;
        lemma_up_steps(parent, i, f, s as nat);
    }
    lemma_len_subset(path.to_set(), all);
}

/// The places of the nodes' parents.
fn place_parents(nodes: &ProfileNodes) -> (parent: Vec<Option<usize>>)
    requires
        nodes.wf(),
    ensures
        parent@.len() == nodes.listed().len(),
        parents_ok(parent@),
        forall|k: int|
            0 <= k < parent@.len() ==> parent_place(nodes.listed(), k, #[trigger] parent@[k]),
{
    let n = nodes.len();
    let ghost list = nodes.listed();
    let mut parent: Vec<Option<usize>> = Vec::new();
    let mut i: usize = 0;
    while i < n
        invariant
            n == list.len(),
            list == nodes.listed(),
            i <= n,
            nodes.wf(),
            parent@.len() == i,
            forall|k: int| 0 <= k < i ==> parent_place(list, k, #[trigger] parent@[k]),
        decreases n - i,
    {
        let p: Option<usize> = match nodes.at(i).parent {
            Some(id) => nodes.place(id),
            None => None,
        };
        parent.push(p);
        i = i + 1;
    }
    assert(parents_ok(parent@)) by {
        assert forall|k: int| 0 <= k < n && (#[trigger] parent@[k]) is Some implies parent@[k]->0
            < n by {
            assert(parent_place(list, k, parent@[k]));
        }
    }
    parent
}

/// Whether the parents of a node lead to a root.
fn check_node(nodes: &ProfileNodes, parent: &Vec<Option<usize>>, id: u64) -> (r: bool)
    requires
        nodes.wf(),
        parent@.len() == nodes.listed().len(),
        parents_ok(parent@),
        forall|k: int|
            0 <= k < parent@.len() ==> parent_place(nodes.listed(), k, #[trigger] parent@[k]),
    ensures
        r == ends(parents_in(*nodes), id),
{
    let ghost list = nodes.listed();
    let n = nodes.len();
    match nodes.place(id) {
        Some(k) => match find_depth(parent, k) {
            Some(_) => {
                proof {
                    lemma_place_ends(*nodes, parent@, k as int, n as nat);
                }
                true
            },
            None => {
                proof {
                    if ends(parents_in(*nodes), id) {
                        let f = choose|f: nat|
                            (#[trigger] chain_up(parents_in(*nodes), id, f)) is Some;
                        lemma_ends_place(*nodes, parent@, k as int, f);
                        lemma_few_steps(parent@, k as int, f);
                        lemma_fuel_down(parent@, k as int, f, n as nat);
                    }
                }
                false
            },
        },
        None => {
            proof {
                nodes.lemma_unlisted(id);
                assert(chain_up(parents_in(*nodes), id, 0) is Some);
            }
            true
        },
    }
}

/// Whether the parents of every node that was sampled in the scope lead to a
/// root.
pub fn check_trees(events: &[TraceEvent], scope: &Scope) -> (r: bool)
    requires
        profile_fits(events@),
    ensures
        r == tree_shaped(events@, *scope),
{
    let (nodes, times) = scan_profile_chunks(events, Some(scope));
    proof {
        lemma_same_parents(events@, nodes);
    }
    let parent = place_parents(&nodes);
    let n = times.len();
    let ghost all = times.sampled();
    let mut k: usize = 0;
    while k < n
        invariant
            n == all.len(),
            all == times.sampled(),
            times.wf(),
            nodes.wf(),
            forall|id: u64| #[trigger] times.time(id) == time_in_scope(events@, *scope, id),
            parents_in(nodes) == parents_traced(events@),
            parent@.len() == nodes.listed().len(),
            parents_ok(parent@),
            forall|j: int|
                0 <= j < parent@.len() ==> parent_place(nodes.listed(), j, #[trigger] parent@[j]),
            k <= n,
            forall|j: int| 0 <= j < k ==> ends(parents_in(nodes), #[trigger] all[j]),
        decreases n - k,
    {
        let (id, _) = times.entry(k);
        if !check_node(&nodes, &parent, id) {
            proof {
                times.lemma_listed(k as int);
                assert(time_in_scope(events@, *scope, id) > 0) by {
                    assert(times.time(id) > 0);
                }
            }
            return false;
        }
        k = k + 1;
    }
    proof {
        assert forall|id: u64| #[trigger] time_in_scope(events@, *scope, id) > 0 implies ends(
            parents_traced(events@),
            id,
        ) by {
            assert(times.time(id) > 0);
            times.lemma_time_listed(id);
            let j = choose|j: int| 0 <= j < all.len() && all[j] == id;
            assert(ends(parents_in(nodes), all[j]));
        }
    }
    true
}

/// Fuel for as many steps as there are is enough.
proof fn lemma_fuel_down(parent: Seq<Option<usize>>, i: int, f: nat, g: nat)
    requires
        steps_up(parent, i, f) is Some,
        steps_up(parent, i, f)->0 <= g,
    ensures
        steps_up(parent, i, g) is Some,
    decreases f,
{
    if parent[i] is Some {
        lemma_fuel_down(parent, parent[i]->0 as int, (f - 1) as nat, (g - 1) as nat);
    }
}

} // verus!
