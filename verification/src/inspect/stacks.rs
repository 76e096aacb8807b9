//! Functions and call stacks of the sampled profile.

use vstd::prelude::*;
use vstd::string::StringExecFns;
use crate::analysis::common::total;
use crate::analysis::cpu::{
    cache_of,
    cpu_profile_for,
    distinct_ids,
    lemma_fits_sum,
    node_name,
    node_url,
    nodes_of,
    profile_fits,
    scan_profile_chunks,
    time_by_id,
    times_of,
    CpuProfileCache,
    ProfileNodes,
    ProfileSelfTimes,
    SUM_BOUND,
};
use crate::doc::{doc_view, make_ms, make_ratio, put, put_num, put_u64, ratio_num, Doc, PieceView};
use crate::inspect::chain::{
    chain,
    chain_names,
    ends,
    lemma_same_parents,
    link_name,
    link_text,
    node_chain_names,
    parents_in,
    time_in_scope,
    tree_shaped,
};
use crate::inspect::events::shown_rows;
use crate::matcher::{matcher_label, matches_text, Matcher};
use crate::render::{ms, put_window, short_url, txt, window_label, window_pieces, window_word};
use crate::scope::Scope;
use crate::sort::{order, orders};
use crate::text::{after_slash, decimal};
use crate::trace::event::TraceEvent;
use crate::windowed::calltree::{pct1, shown_name};

verus! {

/// The profile is that of the scope.
pub open spec fn scope_cache(events: Seq<TraceEvent>, scope: Scope, c: CpuProfileCache) -> bool {
    &&& nodes_of(events, events.len() as int, c.nodes)
    &&& times_of(events, Some(scope), scope.window, events.len() as int, c.self_times)
}

/// The nodes of a profile, and the time of the samples that end in each.
pub struct CpuProfile {
    pub nodes: ProfileNodes,
    pub leaf_time: ProfileSelfTimes,
}

/// The profile is that of the scope.
pub open spec fn profile_of(events: Seq<TraceEvent>, scope: Scope, c: CpuProfile) -> bool {
    &&& nodes_of(events, events.len() as int, c.nodes)
    &&& times_of(events, Some(scope), scope.window, events.len() as int, c.leaf_time)
}

/// Collect all nodes, and the sample time per leaf within the scope.
pub fn collect_cpu_profile(events: &[TraceEvent], scope: &Scope) -> (c: CpuProfile)
    requires
        profile_fits(events@),
    ensures
        profile_of(events@, *scope, c),
{
    let (nodes, leaf_time) = scan_profile_chunks(events, Some(scope));
    CpuProfile { nodes, leaf_time }
}

/// The leaf is one of those asked for: where a name is asked for, a known one
/// whose name matches, and where an address is, one whose address does.
pub open spec fn is_leaf(nodes: ProfileNodes, m: Option<&Matcher>, u: Option<&Matcher>, id: u64) -> bool {
    &&& m matches Some(x) ==> (nodes.node(id) matches Some(v) && matches_text(*x, v.name))
    &&& u matches Some(x) ==> (nodes.node(id) matches Some(v) && matches_text(*x, v.url))
}

/// Those of `ids` that are asked for, in their order.
pub open spec fn leaves(
    nodes: ProfileNodes,
    m: Option<&Matcher>,
    u: Option<&Matcher>,
    ids: Seq<u64>,
) -> Seq<u64>
    decreases ids.len(),
{
    if ids.len() == 0 {
        Seq::empty()
    } else {
        let before = leaves(nodes, m, u, ids.drop_last());
        if is_leaf(nodes, m, u, ids.last()) {
            before.push(ids.last())
        } else {
            before
        }
    }
}

/// The leaves of a profile that are asked for.
pub open spec fn wanted(c: CpuProfileCache, m: Option<&Matcher>, u: Option<&Matcher>) -> Seq<u64> {
    leaves(c.nodes, m, u, c.self_times.sampled())
}

pub open spec fn leaf_keys(c: CpuProfileCache, ids: Seq<u64>) -> Seq<i128> {
    ids.map_values(|id: u64| c.self_times.time(id) as i128)
}

/// `r` holds the leaves asked for, with their times, the most time first.
pub open spec fn heaviest(
    c: CpuProfileCache,
    m: Option<&Matcher>,
    u: Option<&Matcher>,
    r: Seq<(u64, i128)>,
) -> bool {
    let ids = wanted(c, m, u);
    exists|o: Seq<usize>|
        {
            &&& #[trigger] orders(leaf_keys(c, ids), true, o)
            &&& r.len() == o.len()
            &&& forall|k: int|
                0 <= k < r.len() ==> (#[trigger] r[k]).0 == ids[o[k] as int] && r[k].1
                    == c.self_times.time(r[k].0)
        }
}

/// The time of the leaves asked for.
pub open spec fn wanted_time(c: CpuProfileCache, m: Option<&Matcher>, u: Option<&Matcher>) -> int {
    total(wanted(c, m, u), time_by_id(c.self_times))
}

pub proof fn lemma_leaves_distinct(
    nodes: ProfileNodes,
    m: Option<&Matcher>,
    u: Option<&Matcher>,
    ids: Seq<u64>,
)
    requires
        distinct_ids(ids),
    ensures
        distinct_ids(leaves(nodes, m, u, ids)),
        forall|x: u64| #[trigger] leaves(nodes, m, u, ids).contains(x) ==> ids.contains(x),
    decreases ids.len(),
{
    if ids.len() > 0 {
        let t = ids.drop_last();
        assert(distinct_ids(t)) by {
            assert forall|i: int, j: int| 0 <= i < j < t.len() implies (#[trigger] t[i]) != (
            #[trigger] t[j]) by {
                assert(ids[i] != ids[j]);
            }
        }
        lemma_leaves_distinct(nodes, m, u, t);
        let before = leaves(nodes, m, u, t);
        let r = leaves(nodes, m, u, ids);
        assert forall|x: u64| before.contains(x) implies #[trigger] t.contains(x) by {}
        assert forall|i: int, j: int| 0 <= i < j < r.len() implies (#[trigger] r[i]) != (
        #[trigger] r[j]) by {
            assert(before[i] == r[i]);
            if j < before.len() {
                assert(before[j] == r[j]);
            } else {
                assert(before.contains(before[i]));
                let w = choose|w: int| 0 <= w < t.len() && t[w] == before[i];
                assert(ids[w] != ids[ids.len() - 1]);
            }
        }
        assert forall|x: u64| #[trigger] r.contains(x) implies ids.contains(x) by {
            let w = choose|w: int| 0 <= w < r.len() && r[w] == x;
            if w < before.len() {
                assert(before[w] == x);
                assert(t.contains(x));
                let v = choose|v: int| 0 <= v < t.len() && t[v] == x;
                assert(ids[v] == x);
            } else {
                assert(ids[ids.len() - 1] == x);
            }
        }
    }
}

pub proof fn lemma_sampled_distinct(t: ProfileSelfTimes)
    requires
        t.wf(),
    ensures
        distinct_ids(t.sampled()),
{
    let ids = t.sampled();
    assert forall|i: int, j: int| 0 <= i < j < ids.len() implies (#[trigger] ids[i]) != (
    #[trigger] ids[j]) by {
        t.lemma_listed(i);
    }
}

fn matches_leaf(nodes: &ProfileNodes, m: Option<&Matcher>, u: Option<&Matcher>, id: u64) -> (r: bool)
    requires
        nodes.wf(),
    ensures
        r == is_leaf(*nodes, m, u, id),
{
    let by_name = match m {
        Some(x) => match nodes.get(id) {
            Some(n) => x.matches(n.name.as_str()),
            None => false,
        },
        None => true,
    };
    let by_url = match u {
        Some(x) => match nodes.get(id) {
            Some(n) => x.matches(n.url.as_str()),
            None => false,
        },
        None => true,
    };
    by_name && by_url
}

/// The leaves asked for, the most time first, and their time together.
pub fn list_leaves(c: &CpuProfileCache, m: Option<&Matcher>, u: Option<&Matcher>) -> (r: (Vec<(u64, i128)>, i128))
    requires
        c.nodes.wf(),
        c.self_times.wf(),
        c.self_times.sum() <= SUM_BOUND,
    ensures
        heaviest(*c, m, u, r.0@),
        r.1 == wanted_time(*c, m, u),
        0 <= r.1,
        forall|k: int| 0 <= k < r.0@.len() ==> c.self_times.time((#[trigger] r.0@[k]).0) > 0,
{
    let n = c.self_times.len();
    let ghost all = c.self_times.sampled();
    let ghost f = time_by_id(c.self_times);
    proof {
        lemma_sampled_distinct(c.self_times);
        assert(all.take(0) =~= Seq::<u64>::empty());
    }
    let mut list: Vec<(u64, i128)> = Vec::new();
    let mut keys: Vec<i128> = Vec::new();
    let mut sum: i128 = 0;
    let ghost mut ids: Seq<u64> = Seq::empty();
    let mut i: usize = 0;
    while i < n
        invariant
            n == all.len(),
            i <= n,
            all == c.self_times.sampled(),
            distinct_ids(all),
            f == time_by_id(c.self_times),
            c.nodes.wf(),
            c.self_times.wf(),
            c.self_times.sum() <= SUM_BOUND,
            ids == leaves(c.nodes, m, u, all.take(i as int)),
            list@.len() == ids.len(),
            keys@.len() == ids.len(),
            forall|k: int|
                0 <= k < ids.len() ==> (#[trigger] list@[k]).0 == ids[k] && list@[k].1
                    == c.self_times.time(ids[k]) && keys@[k] == list@[k].1 && list@[k].1 > 0,
            0 <= sum,
            sum == total(ids, f),
        decreases n - i,
    {
        let (id, time) = c.self_times.entry(i);
        proof {
            assert(all.take(i + 1).drop_last() =~= all.take(i as int));
            c.self_times.lemma_listed(i as int);
        }
        if matches_leaf(&c.nodes, m, u, id) {
            proof {
                let more = leaves(c.nodes, m, u, all.take(i + 1));
                assert(more == ids.push(id));
                let pre = all.take(i + 1);
                assert(distinct_ids(pre)) by {
                    assert forall|a: int, b: int| 0 <= a < b < pre.len() implies (#[trigger] pre[a])
                        != (#[trigger] pre[b]) by {
                        assert(all[a] != all[b]);
                    }
                }
                lemma_leaves_distinct(c.nodes, m, u, pre);
                c.self_times.lemma_distinct_sum(more);
                assert(more.drop_last() =~= ids);
                ids = more;
            }
            list.push((id, time));
            keys.push(time);
            sum = sum + time;
        }
        i = i + 1;
    }
    proof {
        assert(all.take(n as int) =~= all);
        assert forall|k: int| 0 <= k < keys@.len() implies keys@[k] == leaf_keys(*c, ids)[k] by {
            assert(list@[k].0 == ids[k]);
        }
        assert(keys@ =~= leaf_keys(*c, ids));
    }
    let o = order(&keys, true);
    let mut r: Vec<(u64, i128)> = Vec::new();
    let mut k: usize = 0;
    while k < o.len()
        invariant
            k <= o@.len(),
            orders(keys@, true, o@),
            list@.len() == ids.len(),
            keys@.len() == ids.len(),
            forall|j: int|
                0 <= j < ids.len() ==> (#[trigger] list@[j]).0 == ids[j] && list@[j].1
                    == c.self_times.time(ids[j]) && list@[j].1 > 0,
            r@.len() == k,
            forall|j: int|
                0 <= j < k ==> (#[trigger] r@[j]).0 == ids[o@[j] as int] && r@[j].1
                    == c.self_times.time(r@[j].0) && r@[j].1 > 0,
        decreases o@.len() - k,
    {
        let at = o[k];
        assert(list@[at as int].0 == ids[at as int]);
        r.push(list[at]);
        k = k + 1;
    }
    assert(orders(leaf_keys(*c, wanted(*c, m, u)), true, o@));
    (r, sum)
}

/// A function of the profile.
pub struct FunctionRow {
    pub function: String,
    pub url: String,
    pub time: i128,
}

pub open spec fn function_row(c: CpuProfileCache, leaf: (u64, i128), r: FunctionRow) -> bool {
    &&& r.function@ == shown_name(node_name(c.nodes, leaf.0))
    &&& r.url@ == node_url(c.nodes, leaf.0)
    &&& r.time == leaf.1
}

/// The functions of the scope that match, the most self-time first, with the
/// time of those and the time of all samples.
pub struct FunctionList {
    pub rows: Vec<FunctionRow>,
    pub matched: i128,
    pub all: i128,
}

pub open spec fn functions_of(c: CpuProfileCache, m: Matcher, u: Option<&Matcher>, l: FunctionList) -> bool {
    &&& exists|r: Seq<(u64, i128)>|
        {
            &&& #[trigger] heaviest(c, Some(&m), u, r)
            &&& l.rows@.len() == r.len()
            &&& forall|k: int| 0 <= k < r.len() ==> function_row(c, r[k], #[trigger] l.rows@[k])
        }
    &&& l.matched == wanted_time(c, Some(&m), u)
    &&& l.all == c.self_times.sum()
}

/// Row `i` of the table of functions.
pub open spec fn function_row_pieces(r: FunctionRow, all: int, i: int) -> Seq<PieceView> {
    seq![
        txt("| "@),
        txt(decimal((i + 1) as nat)),
        txt(" | "@),
        txt(r.function@),
        txt(" | "@),
        ms(r.time as int),
        txt("ms | "@),
        pct1(r.time as int, all),
        txt("% | "@),
        txt(after_slash(r.url@)),
        txt(" |\n"@),
    ]
}

pub open spec fn function_rows_pieces(rows: Seq<FunctionRow>, all: int, n: int) -> Seq<PieceView>
    decreases n,
{
    if n <= 0 {
        Seq::empty()
    } else {
        function_rows_pieces(rows, all, n - 1) + function_row_pieces(rows[n - 1], all, n - 1)
    }
}

/// How the filter by address is told.
pub open spec fn url_word(u: Option<&Matcher>) -> Seq<char> {
    match u {
        Some(x) => " + url~"@ + matcher_label(*x),
        None => Seq::empty(),
    }
}

fn tell_url(u: Option<&Matcher>) -> (r: String)
    ensures
        r@ == url_word(u),
{
    let mut s = String::new();
    if let Some(x) = u {
        s.append(" + url~");
        s.append(x.label().as_str());
    }
    assert(s@ =~= url_word(u));
    s
}

/// The section on functions.
pub open spec fn functions_pieces(
    l: FunctionList,
    m: Matcher,
    u: Option<&Matcher>,
    window: Option<(i64, i64)>,
    top: usize,
    min_ts: i64,
) -> Seq<PieceView> {
    seq![
        txt("## CPU Functions matching "@),
        txt(matcher_label(m)),
        txt(url_word(u)),
        txt(" ("@),
        txt(decimal(l.rows@.len())),
        txt(" functions, "@),
        txt(window_word(window)),
        txt(")\n\n"@),
    ] + window_pieces(window, min_ts) + seq![
        txt("- **Matched self-time**: "@),
        ms(l.matched as int),
        txt("ms\n\n"@),
    ] + if l.rows@.len() == 0 {
        seq![txt("No matching functions.\n\n"@)]
    } else {
        seq![
            txt(
                "| # | function | self | % in scope | file |\n|---|----------|------|------------|------|\n"@,
            ),
        ] + function_rows_pieces(l.rows@, l.all as int, shown_rows(top, l.rows@.len())) + seq![
            txt("\n"@),
        ]
    }
}

#[verifier::rlimit(30)]
fn put_function_row(d: &mut Doc, r: &FunctionRow, all: i128, k: usize)
    requires
        k < usize::MAX,
    ensures
        doc_view(final(d)@) == doc_view(old(d)@) + function_row_pieces(*r, all as int, k as int),
{
    let ghost before = doc_view(d@);
    put(d, "| ");
    put_u64(d, k as u64 + 1);
    put(d, " | ");
    put(d, r.function.as_str());
    put(d, " | ");
    put_num(d, make_ms(r.time));
    put(d, "ms | ");
    put_num(d, make_ratio(r.time, all, 100, 1, false));
    put(d, "% | ");
    put(d, short_url(r.url.as_str()).as_str());
    put(d, " |\n");
    assert(doc_view(d@) =~= before + function_row_pieces(*r, all as int, k as int));
}

fn put_function_rows(d: &mut Doc, rows: &Vec<FunctionRow>, all: i128, top: usize)
    ensures
        doc_view(final(d)@) == doc_view(old(d)@) + function_rows_pieces(
            rows@,
            all as int,
            shown_rows(top, rows@.len()),
        ),
{
    let n: usize = if top < rows.len() {
        top
    } else {
        rows.len()
    };
    let ghost before = doc_view(d@);
    let mut k: usize = 0;
    assert(before + function_rows_pieces(rows@, all as int, 0) =~= before);
    while k < n
        invariant
            k <= n <= rows@.len(),
            doc_view(d@) == before + function_rows_pieces(rows@, all as int, k as int),
        decreases n - k,
    {
        let r = &rows[k];
        put_function_row(d, r, all, k);
        assert(doc_view(d@) =~= before + function_rows_pieces(rows@, all as int, k + 1));
        k = k + 1;
    }
}

/// Name and address of a node.
fn named_url(nodes: &ProfileNodes, id: u64) -> (r: (String, String))
    requires
        nodes.wf(),
    ensures
        r.0@ == shown_name(node_name(*nodes, id)),
        r.1@ == node_url(*nodes, id),
{
    match nodes.get(id) {
        Some(n) => {
            let name = if n.name.as_str().is_empty() {
                "(anonymous)".to_owned()
            } else {
                n.name.clone()
            };
            (name, n.url.clone())
        },
        None => ("(anonymous)".to_owned(), String::new()),
    }
}

/// The functions of a profile that match.
pub fn list_functions(c: &CpuProfileCache, m: &Matcher, u: Option<&Matcher>) -> (l: FunctionList)
    requires
        c.nodes.wf(),
        c.self_times.wf(),
        c.self_times.sum() <= SUM_BOUND,
    ensures
        functions_of(*c, *m, u, l),
{
    let (leaves, matched) = list_leaves(c, Some(m), u);
    let mut rows: Vec<FunctionRow> = Vec::new();
    let mut k: usize = 0;
    while k < leaves.len()
        invariant
            k <= leaves@.len(),
            c.nodes.wf(),
            rows@.len() == k,
            forall|j: int| 0 <= j < k ==> function_row(*c, leaves@[j], #[trigger] rows@[j]),
        decreases leaves@.len() - k,
    {
        let (id, time) = leaves[k];
        let (function, url) = named_url(&c.nodes, id);
        rows.push(FunctionRow { function, url, time });
        k = k + 1;
    }
    let l = FunctionList { rows, matched, all: c.self_times.total() };
    assert(heaviest(*c, Some(m), u, leaves@));
    l
}

/// Self-time of the functions of a scope that match, and the section that
/// tells it.
#[verifier::rlimit(30)]
pub fn functions_section(
    events: &[TraceEvent],
    matcher: &Matcher,
    url: Option<&Matcher>,
    scope: &Scope,
    top: usize,
    min_ts: i64,
    cache: Option<&CpuProfileCache>,
) -> (r: (Doc, FunctionList))
    requires
        profile_fits(events@),
        cache matches Some(c) ==> cache_of(events@, *c),
    ensures
        exists|c: CpuProfileCache| #[trigger]
            scope_cache(events@, *scope, c) && functions_of(c, *matcher, url, r.1),
        doc_view(r.0@) == functions_pieces(r.1, *matcher, url, scope.window, top, min_ts),
{
    let profile = cpu_profile_for(events, scope, cache);
    let c = profile.get();
    proof {
        lemma_fits_sum(events@.len() as int, c.self_times.sum());
    }
    let l = list_functions(c, matcher, url);
    let mut d: Doc = Vec::new();
    put(&mut d, "## CPU Functions matching ");
    put(&mut d, matcher.label().as_str());
    put(&mut d, tell_url(url).as_str());
    put(&mut d, " (");
    put_u64(&mut d, l.rows.len() as u64);
    put(&mut d, " functions, ");
    put(&mut d, window_label(scope.window));
    put(&mut d, ")\n\n");
    put_window(&mut d, scope.window, min_ts);
    put(&mut d, "- **Matched self-time**: ");
    put_num(&mut d, make_ms(l.matched));
    put(&mut d, "ms\n\n");
    if l.rows.len() == 0 {
        put(&mut d, "No matching functions.\n\n");
    } else {
        put(
            &mut d,
            "| # | function | self | % in scope | file |\n|---|----------|------|------------|------|\n",
        );
        put_function_rows(&mut d, &l.rows, l.all, top);
        put(&mut d, "\n");
    }
    assert(doc_view(d@) =~= functions_pieces(l, *matcher, url, scope.window, top, min_ts));
    assert(scope_cache(events@, *scope, *c) && functions_of(*c, *matcher, url, l));
    (d, l)
}

/// The names of places `[from, to)`, with `sep` between them.
pub open spec fn joined(names: Seq<String>, sep: Seq<char>, from: int, to: int) -> Seq<char>
    decreases to - from,
{
    if to <= from {
        Seq::empty()
    } else if to == from + 1 {
        names[from]@
    } else {
        joined(names, sep, from, to - 1) + sep + names[to - 1]@
    }
}

/// The names of places `[from, to)`, with `sep` between them.
pub fn join(names: &Vec<String>, sep: &str, from: usize, to: usize) -> (r: String)
    requires
        from <= to <= names@.len(),
    ensures
        r@ == joined(names@, sep@, from as int, to as int),
{
    let mut s = String::new();
    let mut k: usize = from;
    assert(s@ =~= joined(names@, sep@, from as int, from as int));
    while k < to
        invariant
            from <= k <= to <= names@.len(),
            s@ == joined(names@, sep@, from as int, k as int),
        decreases to - k,
    {
        if k > from {
            s.append(sep);
        }
        s.append(names[k].as_str());
        assert(s@ =~= joined(names@, sep@, from as int, k + 1));
        k = k + 1;
    }
    s
}

/// A chain as it is told: of a long one only the first two and the last ten.
pub open spec fn told_chain(names: Seq<String>) -> Seq<char> {
    let n = names.len() as int;
    if n > 14 {
        joined(names, " → "@, 0, 2) + " → … → "@ + joined(names, " → "@, n - 10, n)
    } else {
        joined(names, " → "@, 0, n)
    }
}

fn tell_chain(names: &Vec<String>) -> (r: String)
    ensures
        r@ == told_chain(names@),
{
    let n = names.len();
    if n > 14 {
        let mut s = join(names, " → ", 0, 2);
        s.append(" → … → ");
        s.append(join(names, " → ", n - 10, n).as_str());
        assert(s@ =~= told_chain(names@));
        s
    } else {
        join(names, " → ", 0, n)
    }
}

/// A leaf with its call stack.
pub struct StackRow {
    pub time: i128,
    pub leaf: String,
    /// The file of the leaf.
    pub file: String,
    /// The names from the root down to the leaf.
    pub stack: Vec<String>,
}

pub open spec fn stack_row(c: CpuProfileCache, leaf: (u64, i128), r: StackRow) -> bool {
    &&& r.time == leaf.1
    &&& r.leaf@ == link_name(c.nodes.node(leaf.0))
    &&& r.file@ == after_slash(node_url(c.nodes, leaf.0))
    &&& chain_names(c.nodes, chain(parents_in(c.nodes), leaf.0), r.stack@)
}

/// The heaviest stacks of a scope, how many there are, and their time.
pub struct StackList {
    pub rows: Vec<StackRow>,
    pub count: usize,
    pub time: i128,
}

pub open spec fn stacks_of(
    c: CpuProfileCache,
    m: Option<&Matcher>,
    u: Option<&Matcher>,
    top: usize,
    l: StackList,
) -> bool {
    &&& exists|r: Seq<(u64, i128)>|
        {
            &&& #[trigger] heaviest(c, m, u, r)
            &&& l.count == r.len()
            &&& l.rows@.len() == shown_rows(top, r.len())
            &&& forall|k: int| 0 <= k < l.rows@.len() ==> stack_row(c, r[k], #[trigger] l.rows@[k])
        }
    &&& l.time == wanted_time(c, m, u)
}

/// Stack `i` of the section.
pub open spec fn stack_pieces(r: StackRow, all: int, i: int) -> Seq<PieceView> {
    seq![
        txt("### #"@),
        txt(decimal((i + 1) as nat)),
        txt("  "@),
        ms(r.time as int),
        txt("ms ("@),
        pct1(r.time as int, all),
        txt("% of matched)  depth "@),
        txt(decimal(r.stack@.len())),
        txt("\n- **leaf**: `"@),
        txt(r.leaf@),
        txt("` _"@),
        txt(r.file@),
        txt("_ \n- **stack**: "@),
        txt(told_chain(r.stack@)),
        txt("\n\n"@),
    ]
}

pub open spec fn stack_rows_pieces(rows: Seq<StackRow>, all: int, n: int) -> Seq<PieceView>
    decreases n,
{
    if n <= 0 {
        Seq::empty()
    } else {
        stack_rows_pieces(rows, all, n - 1) + stack_pieces(rows[n - 1], all, n - 1)
    }
}

/// How the filters of the stacks are told.
pub open spec fn leaf_word(m: Option<&Matcher>, u: Option<&Matcher>) -> Seq<char> {
    match (m, u) {
        (Some(x), _) => "leaf ~ "@ + matcher_label(*x) + url_word(u),
        (None, Some(y)) => "leaf url~"@ + matcher_label(*y),
        (None, None) => "all leaves"@,
    }
}

fn tell_leaves(m: Option<&Matcher>, u: Option<&Matcher>) -> (r: String)
    ensures
        r@ == leaf_word(m, u),
{
    let mut s = String::new();
    match (m, u) {
        (Some(x), _) => {
            s.append("leaf ~ ");
            s.append(x.label().as_str());
            s.append(tell_url(u).as_str());
        },
        (None, Some(y)) => {
            s.append("leaf url~");
            s.append(y.label().as_str());
        },
        (None, None) => {
            s.append("all leaves");
        },
    }
    assert(s@ =~= leaf_word(m, u));
    s
}

/// The section on stacks.
pub open spec fn stacks_pieces(
    l: StackList,
    m: Option<&Matcher>,
    u: Option<&Matcher>,
    window: Option<(i64, i64)>,
    min_ts: i64,
) -> Seq<PieceView> {
    seq![
        txt("## Heaviest call stacks ("@),
        txt(decimal(l.count as nat)),
        txt(" leaves, "@),
        txt(leaf_word(m, u)),
        txt(", "@),
        txt(window_word(window)),
        txt(")\n\n"@),
    ] + window_pieces(
        window,
        min_ts,
    ) + if l.count == 0 {
        seq![txt("No matching stacks.\n\n"@)]
    } else {
        stack_rows_pieces(l.rows@, l.time as int, l.rows@.len() as int)
    }
}

#[verifier::rlimit(30)]
fn put_stack(d: &mut Doc, r: &StackRow, all: i128, k: usize)
    requires
        k < usize::MAX,
    ensures
        doc_view(final(d)@) == doc_view(old(d)@) + stack_pieces(*r, all as int, k as int),
{
    let ghost before = doc_view(d@);
    put(d, "### #");
    put_u64(d, k as u64 + 1);
    put(d, "  ");
    put_num(d, make_ms(r.time));
    put(d, "ms (");
    put_num(d, make_ratio(r.time, all, 100, 1, false));
    put(d, "% of matched)  depth ");
    put_u64(d, r.stack.len() as u64);
    put(d, "\n- **leaf**: `");
    put(d, r.leaf.as_str());
    put(d, "` _");
    put(d, r.file.as_str());
    put(d, "_ \n- **stack**: ");
    put(d, tell_chain(&r.stack).as_str());
    put(d, "\n\n");
    assert(doc_view(d@) =~= before + stack_pieces(*r, all as int, k as int));
}

fn put_stacks(d: &mut Doc, rows: &Vec<StackRow>, all: i128)
    ensures
        doc_view(final(d)@) == doc_view(old(d)@) + stack_rows_pieces(
            rows@,
            all as int,
            rows@.len() as int,
        ),
{
    let ghost before = doc_view(d@);
    let n = rows.len();
    let mut k: usize = 0;
    assert(before + stack_rows_pieces(rows@, all as int, 0) =~= before);
    while k < n
        invariant
            n == rows@.len(),
            k <= n,
            doc_view(d@) == before + stack_rows_pieces(rows@, all as int, k as int),
        decreases n - k,
    {
        let r = &rows[k];
        put_stack(d, r, all, k);
        assert(doc_view(d@) =~= before + stack_rows_pieces(rows@, all as int, k + 1));
        k = k + 1;
    }
}

/// The heaviest stacks of a profile.
pub fn list_stacks(c: &CpuProfileCache, m: Option<&Matcher>, u: Option<&Matcher>, top: usize) -> (l: StackList)
    requires
        c.nodes.wf(),
        c.self_times.wf(),
        c.self_times.sum() <= SUM_BOUND,
        forall|id: u64|
            c.self_times.time(id) > 0 ==> #[trigger] ends(parents_in(c.nodes), id),
    ensures
        stacks_of(*c, m, u, top, l),
{
    let (leaves, time) = list_leaves(c, m, u);
    let n: usize = if top < leaves.len() {
        top
    } else {
        leaves.len()
    };
    let mut rows: Vec<StackRow> = Vec::new();
    let mut k: usize = 0;
    while k < n
        invariant
            k <= n <= leaves@.len(),
            c.nodes.wf(),
            forall|id: u64|
                c.self_times.time(id) > 0 ==> #[trigger] ends(parents_in(c.nodes), id),
            forall|j: int|
                0 <= j < leaves@.len() ==> c.self_times.time((#[trigger] leaves@[j]).0) > 0,
            rows@.len() == k,
            forall|j: int| 0 <= j < k ==> stack_row(*c, leaves@[j], #[trigger] rows@[j]),
        decreases n - k,
    {
        let (id, t) = leaves[k];
        let (_, url) = named_url(&c.nodes, id);
        assert(ends(parents_in(c.nodes), id));
        let row = StackRow {
            time: t,
            leaf: link_text(&c.nodes, id),
            file: short_url(url.as_str()),
            stack: node_chain_names(&c.nodes, id),
        };
        rows.push(row);
        k = k + 1;
    }
    let l = StackList { rows, count: leaves.len(), time };
    assert(heaviest(*c, m, u, leaves@));
    l
}

/// The heaviest call stacks of a scope, and the section that tells them. The
/// parents of the sampled nodes must not run in a circle: see `check_trees`.
#[verifier::rlimit(30)]
pub fn stacks_section(
    events: &[TraceEvent],
    matcher: Option<&Matcher>,
    url: Option<&Matcher>,
    scope: &Scope,
    top: usize,
    min_ts: i64,
    cache: Option<&CpuProfileCache>,
) -> (r: (Doc, StackList))
    requires
        profile_fits(events@),
        tree_shaped(events@, *scope),
        cache matches Some(c) ==> cache_of(events@, *c),
    ensures
        exists|c: CpuProfileCache| #[trigger]
            scope_cache(events@, *scope, c) && stacks_of(c, matcher, url, top, r.1),
        doc_view(r.0@) == stacks_pieces(r.1, matcher, url, scope.window, min_ts),
{
    let profile = cpu_profile_for(events, scope, cache);
    let c = profile.get();
    proof {
        lemma_fits_sum(events@.len() as int, c.self_times.sum());
        lemma_same_parents(events@, c.nodes);
        assert forall|id: u64|
            c.self_times.time(id) > 0 implies #[trigger] ends(parents_in(c.nodes), id) by {
            assert(time_in_scope(events@, *scope, id) > 0);
        }
    }
    let l = list_stacks(c, matcher, url, top);
    let mut d: Doc = Vec::new();
    put(&mut d, "## Heaviest call stacks (");
    put_u64(&mut d, l.count as u64);
    put(&mut d, " leaves, ");
    put(&mut d, tell_leaves(matcher, url).as_str());
    put(&mut d, ", ");
    put(&mut d, window_label(scope.window));
    put(&mut d, ")\n\n");
    put_window(&mut d, scope.window, min_ts);
    if l.count == 0 {
        put(&mut d, "No matching stacks.\n\n");
    } else {
        put_stacks(&mut d, &l.rows, l.time);
    }
    assert(doc_view(d@) =~= stacks_pieces(l, matcher, url, scope.window, min_ts));
    assert(scope_cache(events@, *scope, *c) && stacks_of(*c, matcher, url, top, l));
    (d, l)
}

/// One line per stack: its names, and its time in microseconds.
pub open spec fn folded_pieces(rows: Seq<StackRow>, n: int) -> Seq<PieceView>
    decreases n,
{
    if n <= 0 {
        Seq::empty()
    } else {
        folded_pieces(rows, n - 1) + seq![
            txt(joined(rows[n - 1].stack@, ";"@, 0, rows[n - 1].stack@.len() as int)),
            txt(" "@),
            PieceView::Number(ratio_num(rows[n - 1].time as int, 1000, 1, 0, false)),
            txt("\n"@),
        ]
    }
}

/// All stacks of a scope in the folded form that flame graph tools read.
pub fn stacks_folded(
    events: &[TraceEvent],
    matcher: Option<&Matcher>,
    url: Option<&Matcher>,
    scope: &Scope,
    cache: Option<&CpuProfileCache>,
) -> (r: (Doc, StackList))
    requires
        profile_fits(events@),
        tree_shaped(events@, *scope),
        cache matches Some(c) ==> cache_of(events@, *c),
    ensures
        exists|c: CpuProfileCache| #[trigger]
            scope_cache(events@, *scope, c) && stacks_of(c, matcher, url, usize::MAX, r.1),
        doc_view(r.0@) == folded_pieces(r.1.rows@, r.1.rows@.len() as int),
{
    let profile = cpu_profile_for(events, scope, cache);
    let c = profile.get();
    proof {
        lemma_fits_sum(events@.len() as int, c.self_times.sum());
        lemma_same_parents(events@, c.nodes);
        assert forall|id: u64|
            c.self_times.time(id) > 0 implies #[trigger] ends(parents_in(c.nodes), id) by {
            assert(time_in_scope(events@, *scope, id) > 0);
        }
    }
    let l = list_stacks(c, matcher, url, usize::MAX);
    let mut d: Doc = Vec::new();
    let mut k: usize = 0;
    assert(doc_view(d@) =~= folded_pieces(l.rows@, 0));
    while k < l.rows.len()
        invariant
            k <= l.rows@.len(),
            doc_view(d@) == folded_pieces(l.rows@, k as int),
        decreases l.rows@.len() - k,
    {
        let row = &l.rows[k];
        put(&mut d, join(&row.stack, ";", 0, row.stack.len()).as_str());
        put(&mut d, " ");
        put_num(&mut d, make_ratio(row.time, 1000, 1, 0, false));
        put(&mut d, "\n");
        assert(doc_view(d@) =~= folded_pieces(l.rows@, k + 1));
        k = k + 1;
    }
    assert(scope_cache(events@, *scope, *c) && stacks_of(*c, matcher, url, usize::MAX, l));
    (d, l)
}

} // verus!
