//! CPU profile: node table, self-time by sample, and the full-trace cache.

use vstd::prelude::*;
use crate::analysis::common::{lemma_total_step, total, TICK_BOUND};
use crate::json::{
    get_opt,
    items_opt,
    json_opt,
    json_views,
    member,
    member_opt,
    str_opt,
    ticks_opt,
    u64_opt,
    Json,
    JsonView,
};
use crate::scope::{allows_source, is_full, is_in_window, time_in, Scope};
use crate::sort::{order, orders};
use crate::table::{lemma_slot_in, lemma_slot_push, slot_in, IdTable};
use crate::text::{contains, has_sub, lowercased, same};
use crate::trace::event::TraceEvent;

verus! {

/// Where a function comes from.
#[derive(Clone, Copy, PartialEq, Eq, Structural)]
pub enum SourceType {
    /// Framework or library.
    Runtime,
    /// The application's own code.
    AppCode,
    /// Browser internals, no address.
    Native,
}

pub open spec fn source_label(s: SourceType) -> Seq<char> {
    match s {
        SourceType::Runtime => "runtime"@,
        SourceType::AppCode => "app"@,
        SourceType::Native => "native"@,
    }
}

impl SourceType {
    pub fn label(&self) -> (r: &'static str)
        ensures
            r@ == source_label(*self),
    {
        match self {
            SourceType::Runtime => "runtime",
            SourceType::AppCode => "app",
            SourceType::Native => "native",
        }
    }
}

/// A lower-case address that names a framework or library.
pub open spec fn names_library(lower: Seq<char>) -> bool {
    ||| has_sub(lower, "node_modules"@)
    ||| has_sub(lower, "svelte"@)
    ||| has_sub(lower, "react"@)
    ||| has_sub(lower, "vue"@)
    ||| has_sub(lower, "angular"@)
    ||| has_sub(lower, "polyfill"@)
    ||| has_sub(lower, "vendor"@)
    ||| has_sub(lower, "chunk-"@)
    ||| has_sub(lower, ".min."@)
}

/// The source type of an address, given also in lower case.
pub open spec fn source_of(url: Seq<char>, lower: Seq<char>) -> SourceType {
    if url.len() == 0 {
        SourceType::Native
    } else if names_library(lower) {
        SourceType::Runtime
    } else {
        SourceType::AppCode
    }
}

/// Classify an address, given also in lower case.
pub fn classify_lowered(url: &str, lower: &str) -> (r: SourceType)
    ensures
        r == source_of(url@, lower@),
{
    if url.is_empty() {
        return SourceType::Native;
    }
    if contains(lower, "node_modules") || contains(lower, "svelte") || contains(lower, "react")
        || contains(lower, "vue") || contains(lower, "angular") || contains(lower, "polyfill")
        || contains(lower, "vendor") || contains(lower, "chunk-") || contains(lower, ".min.") {
        SourceType::Runtime
    } else {
        SourceType::AppCode
    }
}

/// Classify the address of a function.
pub fn classify_url(url: &str) -> (r: SourceType)
    ensures
        r == source_of(url@, lowercased(url@)),
{
    let lower = url.to_lowercase();
    classify_lowered(url, lower.as_str())
}

/// A node of the profile's call tree.
pub struct ProfileNode {
    pub id: u64,
    pub name: String,
    pub url: String,
    pub parent: Option<u64>,
}

/// What a node says.
pub struct NodeView {
    pub id: u64,
    pub name: Seq<char>,
    pub url: Seq<char>,
    pub parent: Option<u64>,
}

impl View for ProfileNode {
    type V = NodeView;

    open spec fn view(&self) -> NodeView {
        NodeView { id: self.id, name: self.name@, url: self.url@, parent: self.parent }
    }
}

pub open spec fn or_text(s: Option<Seq<char>>, other: Seq<char>) -> Seq<char> {
    match s {
        Some(t) => t,
        None => other,
    }
}

pub open spec fn or_zero(v: Option<u64>) -> u64 {
    match v {
        Some(x) => x,
        None => 0,
    }
}

/// The node that a JSON value describes.
pub open spec fn node_view(j: JsonView) -> NodeView {
    let frame = member(j, "callFrame"@);
    NodeView {
        id: or_zero(u64_opt(member(j, "id"@))),
        name: or_text(str_opt(member_opt(frame, "functionName"@)), "(anonymous)"@),
        url: or_text(str_opt(member_opt(frame, "url"@)), Seq::empty()),
        parent: u64_opt(member(j, "parent"@)),
    }
}

fn number_in(j: Option<&Json>) -> (r: Option<u64>)
    ensures
        r == u64_opt(json_opt(j)),
{
    match j {
        Some(v) => v.as_u64(),
        None => None,
    }
}

fn text_in(j: Option<&Json>, other: &str) -> (r: String)
    ensures
        r@ == or_text(str_opt(json_opt(j)), other@),
{
    match j {
        Some(v) => match v.as_str() {
            Some(s) => s.to_owned(),
            None => other.to_owned(),
        },
        None => other.to_owned(),
    }
}

pub(crate) fn read_node(j: &Json) -> (r: ProfileNode)
    ensures
        r@ == node_view(j@),
{
    let frame = j.get("callFrame");
    let id: u64 = match number_in(j.get("id")) {
        Some(v) => v,
        None => 0,
    };
    proof {
        reveal_strlit("");
    }
    let n = ProfileNode {
        id,
        name: text_in(get_opt(frame, "functionName"), "(anonymous)"),
        url: text_in(get_opt(frame, "url"), ""),
        parent: number_in(j.get("parent")),
    };
    assert(""@ =~= Seq::<char>::empty());
    n
}

/// A chunk of the profile.
pub open spec fn is_chunk(e: TraceEvent) -> bool {
    e.name@ == "ProfileChunk"@
}

pub open spec fn chunk_data(e: TraceEvent) -> Option<JsonView> {
    member_opt(e@.said(), "data"@)
}

pub open spec fn chunk_profile(e: TraceEvent) -> Option<JsonView> {
    member_opt(chunk_data(e), "cpuProfile"@)
}

/// The items of an array that may be missing.
pub open spec fn items_or_none(j: Option<JsonView>) -> Seq<JsonView> {
    match items_opt(j) {
        Some(s) => s,
        None => Seq::empty(),
    }
}

/// The nodes of a chunk.
pub open spec fn chunk_nodes(e: TraceEvent) -> Seq<JsonView> {
    if is_chunk(e) {
        items_or_none(member_opt(chunk_profile(e), "nodes"@))
    } else {
        Seq::empty()
    }
}

/// The gaps between the samples of a chunk.
pub open spec fn chunk_deltas(e: TraceEvent) -> Seq<JsonView> {
    if is_chunk(e) {
        items_or_none(member_opt(chunk_data(e), "timeDeltas"@))
    } else {
        Seq::empty()
    }
}

/// The samples of a chunk.
pub open spec fn chunk_samples(e: TraceEvent) -> Seq<JsonView> {
    if is_chunk(e) {
        items_or_none(member_opt(chunk_profile(e), "samples"@))
    } else {
        Seq::empty()
    }
}

/// Number of samples of a chunk that have a gap.
pub open spec fn sample_count(e: TraceEvent) -> nat {
    if chunk_samples(e).len() <= chunk_deltas(e).len() {
        chunk_samples(e).len()
    } else {
        chunk_deltas(e).len()
    }
}

/// A gap, zero where it is no number.
pub open spec fn delta_of(j: JsonView) -> int {
    match ticks_opt(Some(j)) {
        Some(d) => d as int,
        None => 0,
    }
}

/// The sum of the first `k` gaps.
pub open spec fn delta_sum(deltas: Seq<JsonView>, k: int) -> int
    decreases k,
{
    if k <= 0 {
        0
    } else {
        delta_sum(deltas, k - 1) + delta_of(deltas[k - 1])
    }
}

/// The trace is within the limits of the arithmetic: neither the events nor
/// the samples of any one of them are more than a 32-bit number counts.
pub open spec fn profile_fits(events: Seq<TraceEvent>) -> bool {
    &&& events.len() <= u32::MAX
    &&& forall|i: int|
        0 <= i < events.len() ==> chunk_deltas(#[trigger] events[i]).len() <= u32::MAX
}

pub(crate) proof fn lemma_delta_bound(deltas: Seq<JsonView>, k: int)
    requires
        0 <= k,
    ensures
        -TICK_BOUND * k <= delta_sum(deltas, k) <= TICK_BOUND * k,
    decreases k,
{
    if k > 0 {
        lemma_delta_bound(deltas, k - 1);
    }
}

/// When the profile of a process starts: at its first profile event.
pub open spec fn profile_start(events: Seq<TraceEvent>, pid: u64) -> Option<i64>
    decreases events.len(),
{
    if events.len() == 0 {
        None
    } else {
        let e = events.last();
        let before = profile_start(events.drop_last(), pid);
        if before is Some {
            before
        } else if e.name@ == "Profile"@ && e.ph == PH_PROFILE && e.pid == pid {
            Some(e.ts)
        } else {
            None
        }
    }
}

/// The phase of profile starts, `P`.
pub const PH_PROFILE: u8 = 80;

/// The chunk takes part in the walk over sample times: its first gap is a
/// number.
pub open spec fn walks(e: TraceEvent) -> bool {
    chunk_deltas(e).len() > 0 && ticks_opt(Some(chunk_deltas(e)[0])) is Some
}

/// The time of the last sample of a process before event `n`: the profile's
/// start, then on by every chunk's gaps.
pub open spec fn last_sample(events: Seq<TraceEvent>, n: int, pid: u64) -> int
    decreases n,
{
    if n <= 0 {
        match profile_start(events, pid) {
            Some(t) => t as int,
            None => 0,
        }
    } else {
        let e = events[n - 1];
        let before = last_sample(events, n - 1, pid);
        if e.pid == pid && walks(e) {
            before + delta_sum(chunk_deltas(e), chunk_deltas(e).len() as int)
        } else {
            before
        }
    }
}

/// The time of the first sample of the chunk that is event `i`; zero where it
/// takes no part in the walk.
pub open spec fn chunk_base(events: Seq<TraceEvent>, i: int) -> int {
    let e = events[i];
    if walks(e) {
        last_sample(events, i, e.pid) + delta_of(chunk_deltas(e)[0])
    } else {
        0
    }
}

/// What a sample weighs: the gap before it, when that is positive.
pub open spec fn weight_of(j: JsonView) -> int {
    if delta_of(j) > 0 {
        delta_of(j)
    } else {
        0
    }
}

pub open spec fn sample_node(j: JsonView) -> u64 {
    or_zero(u64_opt(Some(j)))
}

/// The weight of sample `k` of the chunk that is event `i`, when it is one of
/// node `id` in the window. Sample `k` lies `delta_sum(.., k)` behind the
/// chunk's first.
pub open spec fn sample_weight(
    events: Seq<TraceEvent>,
    i: int,
    window: Option<(i64, i64)>,
    id: u64,
    k: int,
) -> int {
    let e = events[i];
    if sample_node(chunk_samples(e)[k]) == id && time_in(
        window,
        chunk_base(events, i) + delta_sum(chunk_deltas(e), k),
    ) {
        weight_of(chunk_deltas(e)[k])
    } else {
        0
    }
}

/// The self-time of node `id` in the first `k` samples of event `i`.
pub open spec fn chunk_time(
    events: Seq<TraceEvent>,
    i: int,
    window: Option<(i64, i64)>,
    id: u64,
    k: int,
) -> int
    decreases k,
{
    if k <= 0 {
        0
    } else {
        chunk_time(events, i, window, id, k - 1) + sample_weight(events, i, window, id, k - 1)
    }
}

/// The scope holds the samples of the event.
pub open spec fn scoped(scope: Option<Scope>, e: TraceEvent) -> bool {
    match scope {
        Some(s) => allows_source(s, e),
        None => true,
    }
}

/// The self-time of node `id` in the events from `from` up to `n`.
pub open spec fn self_time(
    events: Seq<TraceEvent>,
    scope: Option<Scope>,
    window: Option<(i64, i64)>,
    id: u64,
    from: int,
    n: int,
) -> int
    decreases n - from,
{
    if n <= from {
        0
    } else {
        let i = n - 1;
        self_time(events, scope, window, id, from, i) + if scoped(scope, events[i]) {
            chunk_time(events, i, window, id, sample_count(events[i]) as int)
        } else {
            0
        }
    }
}

/// The first node with the given id in a list.
pub open spec fn first_in(nodes: Seq<JsonView>, id: u64) -> Option<NodeView>
    decreases nodes.len(),
{
    if nodes.len() == 0 {
        None
    } else if first_in(nodes.drop_last(), id) is Some {
        first_in(nodes.drop_last(), id)
    } else if node_view(nodes.last()).id == id {
        Some(node_view(nodes.last()))
    } else {
        None
    }
}

/// The node with the given id: the first that a chunk from `from` up to `n`
/// describes.
pub open spec fn node_of(events: Seq<TraceEvent>, id: u64, from: int, n: int) -> Option<NodeView>
    decreases n - from,
{
    if n <= from {
        None
    } else if node_of(events, id, from, n - 1) is Some {
        node_of(events, id, from, n - 1)
    } else {
        first_in(chunk_nodes(events[n - 1]), id)
    }
}

/// Scanning the events in two parts: the self-times add up, and the node of
/// the first part wins.
pub proof fn lemma_scan_splits(
    events: Seq<TraceEvent>,
    scope: Option<Scope>,
    window: Option<(i64, i64)>,
    id: u64,
    from: int,
    mid: int,
    to: int,
)
    requires
        from <= mid <= to,
    ensures
        self_time(events, scope, window, id, from, to) == self_time(
            events,
            scope,
            window,
            id,
            from,
            mid,
        ) + self_time(events, scope, window, id, mid, to),
        node_of(events, id, from, to) == if node_of(events, id, from, mid) is Some {
            node_of(events, id, from, mid)
        } else {
            node_of(events, id, mid, to)
        },
    decreases to - mid,
{
    if mid < to {
        lemma_scan_splits(events, scope, window, id, from, mid, to - 1);
    }
}

proof fn lemma_chunk_time_pos(
    events: Seq<TraceEvent>,
    i: int,
    window: Option<(i64, i64)>,
    id: u64,
    k: int,
)
    ensures
        0 <= chunk_time(events, i, window, id, k) <= chunk_time(events, i, None, id, k),
    decreases k,
{
    if k > 0 {
        lemma_chunk_time_pos(events, i, window, id, k - 1);
    }
}

/// A window takes nothing but away: no node has more self-time in it than in
/// the whole trace.
pub proof fn lemma_window_bounds_time(
    events: Seq<TraceEvent>,
    scope: Option<Scope>,
    window: Option<(i64, i64)>,
    id: u64,
    from: int,
    n: int,
)
    ensures
        0 <= self_time(events, scope, window, id, from, n) <= self_time(
            events,
            scope,
            None,
            id,
            from,
            n,
        ),
    decreases n - from,
{
    if from < n {
        lemma_window_bounds_time(events, scope, window, id, from, n - 1);
        lemma_chunk_time_pos(
            events,
            n - 1,
            window,
            id,
            sample_count(events[n - 1]) as int,
        );
    }
}

/// Every sample from `from` up to `n` lies in the window.
pub open spec fn samples_in_window(events: Seq<TraceEvent>, window: Option<(i64, i64)>, from: int, n: int) -> bool {
    forall|i: int, k: int|
        from <= i < n && 0 <= k < sample_count(events[i]) ==> time_in(
            window,
            #[trigger] (chunk_base(events, i) + delta_sum(chunk_deltas(events[i]), k)),
        )
}

proof fn lemma_wide_chunk(
    events: Seq<TraceEvent>,
    window: Option<(i64, i64)>,
    id: u64,
    from: int,
    n: int,
    i: int,
    k: int,
)
    requires
        samples_in_window(events, window, from, n),
        from <= i < n,
        k <= sample_count(events[i]),
    ensures
        chunk_time(events, i, window, id, k) == chunk_time(events, i, None, id, k),
    decreases k,
{
    if k > 0 {
        lemma_wide_chunk(events, window, id, from, n, i, k - 1);
        assert(time_in(
            window,
            chunk_base(events, i) + delta_sum(chunk_deltas(events[i]), k - 1),
        ));
    }
}

/// A window that holds all samples gives the self-times of the whole trace.
pub proof fn lemma_wide_window(
    events: Seq<TraceEvent>,
    scope: Option<Scope>,
    window: Option<(i64, i64)>,
    id: u64,
    from: int,
    n: int,
)
    requires
        samples_in_window(events, window, from, n),
    ensures
        self_time(events, scope, window, id, from, n) == self_time(events, scope, None, id, from, n),
    decreases n - from,
{
    if from < n {
        assert(samples_in_window(events, window, from, n - 1));
        lemma_wide_window(events, scope, window, id, from, n - 1);
        lemma_wide_chunk(
            events,
            window,
            id,
            from,
            n,
            n - 1,
            sample_count(events[n - 1]) as int,
        );
    }
}

/// The call tree's nodes by id; of two with one id the first is kept.
pub struct ProfileNodes {
    ids: IdTable,
    nodes: Vec<ProfileNode>,
}

impl ProfileNodes {
    pub closed spec fn wf(&self) -> bool {
        &&& self.ids.wf()
        &&& self.nodes@.len() == self.ids@.len()
        &&& forall|i: int| 0 <= i < self.nodes@.len() ==> (#[trigger] self.nodes@[i]).id == self.ids@[i]
    }

    /// The node with the given id.
    pub closed spec fn node(&self, id: u64) -> Option<NodeView> {
        match slot_in(self.ids@, id) {
            Some(i) => Some(self.nodes@[i]@),
            None => None,
        }
    }

    pub fn new() -> (r: ProfileNodes)
        ensures
            r.wf(),
            forall|id: u64| #[trigger] r.node(id) is None,
    {
        ProfileNodes { ids: IdTable::new(), nodes: Vec::new() }
    }

    /// Take a node in, unless one with its id is there.
    pub fn add(&mut self, n: ProfileNode)
        requires
            old(self).wf(),
        ensures
            final(self).wf(),
            forall|id: u64| #[trigger]
                final(self).node(id) == (if old(self).node(id) is Some {
                    old(self).node(id)
                } else if n.id == id {
                    Some(n@)
                } else {
                    None
                }),
    {
        let len = self.ids.len();
        let ghost ids0 = self.ids@;
        let ghost nodes0 = self.nodes@;
        let ghost v = n@;
        let slot = self.ids.add(n.id);
        proof {
            lemma_slot_in(ids0, v.id);
            assert forall|id: u64| #[trigger] slot_in(self.ids@, id) == (match slot_in(ids0, id) {
                Some(i) => Some(i),
                None => if v.id == id && !ids0.contains(id) {
                    Some(ids0.len() as int)
                } else {
                    None
                },
            }) by {
                lemma_slot_in(ids0, id);
                if !ids0.contains(v.id) {
                    lemma_slot_push(ids0, v.id, id);
                }
            }
            assert forall|id: u64| slot_in(ids0, id) is Some implies 0 <= #[trigger] slot_in(
                ids0,
                id,
            )->0 < ids0.len() by {
                lemma_slot_in(ids0, id);
            }
        }
        if slot >= len {
            self.nodes.push(n);
        }
    }

    /// The nodes in the order in which they came.
    pub closed spec fn listed(&self) -> Seq<ProfileNode> {
        self.nodes@
    }

    /// Each node is listed once, under its own id.
    pub proof fn lemma_listed(&self, i: int)
        requires
            self.wf(),
            0 <= i < self.listed().len(),
        ensures
            self.node(self.listed()[i].id) == Some(self.listed()[i]@),
            forall|j: int|
                0 <= j < self.listed().len() && (#[trigger] self.listed()[j]).id == self.listed()[i].id
                    ==> j == i,
    {
        let id = self.nodes@[i].id;
        lemma_slot_in(self.ids@, id);
        self.ids.lemma_distinct(i, slot_in(self.ids@, id)->0);
        assert forall|j: int|
            0 <= j < self.listed().len() && (#[trigger] self.listed()[j]).id
                == self.listed()[i].id implies j == i by {
            self.ids.lemma_distinct(i, j);
        }
    }

    /// An id that is not listed has no node.
    pub proof fn lemma_unlisted(&self, id: u64)
        requires
            self.wf(),
            forall|j: int| 0 <= j < self.listed().len() ==> (#[trigger] self.listed()[j]).id != id,
        ensures
            self.node(id) is None,
    {
        lemma_slot_in(self.ids@, id);
        if self.node(id) is Some {
            let i = slot_in(self.ids@, id)->0;
            assert(self.nodes@[i].id == id);
            assert(self.listed()[i].id != id);
        }
    }

    /// Number of nodes.
    pub fn len(&self) -> (r: usize)
        ensures
            r == self.listed().len(),
    {
        self.nodes.len()
    }

    /// The node listed at `i`.
    pub fn at(&self, i: usize) -> (r: &ProfileNode)
        requires
            i < self.listed().len(),
        ensures
            *r == self.listed()[i as int],
    {
        &self.nodes[i]
    }

    /// Where the node with the given id is listed.
    pub fn place(&self, id: u64) -> (r: Option<usize>)
        requires
            self.wf(),
        ensures
            match r {
                Some(i) => i < self.listed().len() && self.listed()[i as int].id == id,
                None => forall|i: int|
                    0 <= i < self.listed().len() ==> (#[trigger] self.listed()[i]).id != id,
            },
    {
        let r = self.ids.find(id);
        proof {
            if r is None {
                assert forall|i: int| 0 <= i < self.listed().len() implies (
                #[trigger] self.listed()[i]).id != id by {
                    if self.nodes@[i].id == id {
                        assert(self.ids@[i] == id);
                        assert(self.ids@.contains(id));
                    }
                }
            }
        }
        r
    }

    /// The name, address and parent of a node.
    pub fn get(&self, id: u64) -> (r: Option<&ProfileNode>)
        requires
            self.wf(),
        ensures
            match r {
                Some(n) => self.node(id) == Some(n@) && n.id == id,
                None => self.node(id) is None,
            },
    {
        match self.ids.find(id) {
            Some(i) => Some(&self.nodes[i]),
            None => None,
        }
    }
}

/// Every sum of a bounded number of times fits.
pub const SUM_BOUND: i128 = 0x7fff_ffff_ffff_ffff_ffff_ffff_ffff_ffff;

pub open spec fn same_time(t: i128) -> int {
    t as int
}

/// Self-time by node, in the order in which the nodes were first sampled.
pub struct ProfileSelfTimes {
    ids: IdTable,
    times: Vec<i128>,
}

impl ProfileSelfTimes {
    /// Ids are distinct and every time is positive.
    pub closed spec fn wf(&self) -> bool {
        &&& self.ids.wf()
        &&& self.times@.len() == self.ids@.len()
        &&& forall|i: int| 0 <= i < self.times@.len() ==> (#[trigger] self.times@[i]) > 0
    }

    /// The self-time of a node, zero when it was not sampled.
    pub closed spec fn time(&self, id: u64) -> int {
        match slot_in(self.ids@, id) {
            Some(i) => self.times@[i] as int,
            None => 0,
        }
    }

    /// The sum of all self-times.
    pub closed spec fn sum(&self) -> int {
        total(self.times@, |t: i128| same_time(t))
    }

    /// The nodes that were sampled.
    pub closed spec fn sampled(&self) -> Seq<u64> {
        self.ids@
    }

    pub fn new() -> (r: ProfileSelfTimes)
        ensures
            r.wf(),
            r.sum() == 0,
            r.sampled().len() == 0,
            forall|id: u64| #[trigger] r.time(id) == 0,
    {
        ProfileSelfTimes { ids: IdTable::new(), times: Vec::new() }
    }

    /// What is known of the listed nodes: each is listed once, with its time.
    pub proof fn lemma_listed(&self, i: int)
        requires
            self.wf(),
            0 <= i < self.sampled().len(),
        ensures
            self.time(self.sampled()[i]) > 0,
            forall|j: int|
                0 <= j < self.sampled().len() && self.sampled()[j] == self.sampled()[i] ==> j == i,
    {
        let id = self.ids@[i];
        lemma_slot_in(self.ids@, id);
        self.ids.lemma_distinct(i, slot_in(self.ids@, id)->0);
        assert(self.times@[i] > 0);
        assert forall|j: int|
            0 <= j < self.sampled().len() && self.sampled()[j] == self.sampled()[i] implies j == i by {
            self.ids.lemma_distinct(i, j);
        }
    }

    /// A node that is not listed has no time, one that is has some.
    pub proof fn lemma_time_listed(&self, id: u64)
        requires
            self.wf(),
        ensures
            self.time(id) >= 0,
            self.time(id) > 0 <==> self.sampled().contains(id),
            self.time(id) <= self.sum(),
    {
        lemma_slot_in(self.ids@, id);
        if self.sampled().contains(id) {
            let i = slot_in(self.ids@, id)->0;
            assert(self.times@[i] > 0);
        }
        lemma_sum_covers(self.times@);
        if slot_in(self.ids@, id) is Some {
            let i = slot_in(self.ids@, id)->0;
            assert(self.times@[i] <= self.sum());
        }
    }

    /// Add to the self-time of a node.
    pub fn add(&mut self, id: u64, w: i128)
        requires
            old(self).wf(),
            w > 0,
            old(self).sum() + w <= SUM_BOUND,
        ensures
            final(self).wf(),
            final(self).sum() == old(self).sum() + w,
            forall|x: u64| #[trigger]
                final(self).time(x) == old(self).time(x) + if x == id {
                    w as int
                } else {
                    0
                },
    {
        let len = self.ids.len();
        let ghost ids0 = self.ids@;
        let ghost times0 = self.times@;
        let ghost f = |t: i128| same_time(t);
        proof {
            lemma_sum_covers(times0);
        }
        let slot = self.ids.add(id);
        if slot < len {
            let t: i128 = self.times[slot];
            assert(times0[slot as int] <= total(times0, f));
            self.times.set(slot, t + w);
            proof {
                lemma_total_set(times0, slot as int, (t + w) as i128);
                assert forall|x: u64| slot_in(ids0, x) is Some implies 0 <= #[trigger] slot_in(
                    ids0,
                    x,
                )->0 < ids0.len() && ids0[slot_in(ids0, x)->0] == x by {
                    lemma_slot_in(ids0, x);
                }
            }
        } else {
            self.times.push(w);
            proof {
                assert(self.times@.drop_last() =~= times0);
                assert forall|x: u64| #[trigger] slot_in(self.ids@, x) == (match slot_in(ids0, x) {
                    Some(i) => Some(i),
                    None => if id == x {
                        Some(ids0.len() as int)
                    } else {
                        None
                    },
                }) by {
                    lemma_slot_push(ids0, id, x);
                }
                assert forall|x: u64| slot_in(ids0, x) is Some implies 0 <= #[trigger] slot_in(
                    ids0,
                    x,
                )->0 < ids0.len() && ids0[slot_in(ids0, x)->0] == x by {
                    lemma_slot_in(ids0, x);
                }
                lemma_slot_in(ids0, id);
            }
        }
    }

    /// Number of nodes that were sampled.
    pub fn len(&self) -> (r: usize)
        requires
            self.wf(),
        ensures
            r == self.sampled().len(),
    {
        self.ids.len()
    }

    /// The node listed at `i` and its self-time.
    pub fn entry(&self, i: usize) -> (r: (u64, i128))
        requires
            self.wf(),
            i < self.sampled().len(),
        ensures
            r.0 == self.sampled()[i as int],
            r.1 == self.time(r.0),
            r.1 > 0,
    {
        proof {
            lemma_slot_in(self.ids@, self.ids@[i as int]);
            self.ids.lemma_distinct(i as int, slot_in(self.ids@, self.ids@[i as int])->0);
        }
        (self.ids.id(i), self.times[i])
    }

    /// The sum of all self-times.
    pub fn total(&self) -> (r: i128)
        requires
            self.wf(),
            self.sum() <= SUM_BOUND,
        ensures
            r == self.sum(),
    {
        let ghost f = |t: i128| same_time(t);
        let mut sum: i128 = 0;
        let mut i: usize = 0;
        assert(self.times@.take(0) =~= Seq::<i128>::empty());
        while i < self.times.len()
            invariant
                self.wf(),
                self.sum() <= SUM_BOUND,
                f == (|t: i128| same_time(t)),
                i <= self.times@.len(),
                0 <= sum,
                sum == total(self.times@.take(i as int), f),
            decreases self.times@.len() - i,
        {
            proof {
                lemma_total_step(self.times@, f, i as int);
                self.lemma_prefix_sum(i + 1);
                assert(self.times@[i as int] > 0);
            }
            sum = sum + self.times[i];
            i = i + 1;
        }
        assert(self.times@.take(self.times@.len() as int) =~= self.times@);
        sum
    }

    /// The self-time of a node.
    pub fn get(&self, id: u64) -> (r: i128)
        requires
            self.wf(),
        ensures
            r == self.time(id),
    {
        match self.ids.find(id) {
            Some(i) => self.times[i],
            None => 0,
        }
    }
}

/// No positive number is more than the sum it is part of.
proof fn lemma_sum_covers(s: Seq<i128>)
    requires
        forall|i: int| 0 <= i < s.len() ==> (#[trigger] s[i]) > 0,
    ensures
        total(s, |t: i128| same_time(t)) >= 0,
        forall|i: int| 0 <= i < s.len() ==> (#[trigger] s[i]) <= total(s, |t: i128| same_time(t)),
    decreases s.len(),
{
    if s.len() > 0 {
        let t = s.drop_last();
        assert forall|i: int| 0 <= i < t.len() implies (#[trigger] t[i]) > 0 by {
            assert(t[i] == s[i]);
        }
        lemma_sum_covers(t);
        assert forall|i: int| 0 <= i < s.len() implies (#[trigger] s[i]) <= total(
            s,
            |t: i128| same_time(t),
        ) by {
            if i < t.len() {
                assert(t[i] == s[i]);
            }
        }
    }
}

proof fn lemma_total_set(s: Seq<i128>, i: int, v: i128)
    requires
        0 <= i < s.len(),
    ensures
        total(s.update(i, v), |t: i128| same_time(t)) == total(s, |t: i128| same_time(t)) - s[i] + v,
    decreases s.len(),
{
    let u = s.update(i, v);
    if i == s.len() - 1 {
        assert(u.drop_last() =~= s.drop_last());
    } else {
        lemma_total_set(s.drop_last(), i, v);
        assert(u.drop_last() =~= s.drop_last().update(i, v));
    }
}

/// The items of an array that may be missing.
pub open spec fn list_or_none(v: Option<&Vec<Json>>) -> Seq<JsonView> {
    match v {
        Some(a) => json_views(a@),
        None => Seq::empty(),
    }
}

fn array_in<'a>(j: Option<&'a Json>) -> (r: Option<&'a Vec<Json>>)
    ensures
        list_or_none(r) == items_or_none(json_opt(j)),
{
    match j {
        Some(v) => v.as_array(),
        None => None,
    }
}

pub(crate) fn deltas_in(e: &TraceEvent) -> (r: Option<&Vec<Json>>)
    ensures
        list_or_none(r) == chunk_deltas(*e),
{
    if !same(e.name.as_str(), "ProfileChunk") {
        return None;
    }
    array_in(get_opt(get_opt(e.args_value(), "data"), "timeDeltas"))
}

pub(crate) fn samples_in(e: &TraceEvent) -> (r: Option<&Vec<Json>>)
    ensures
        list_or_none(r) == chunk_samples(*e),
{
    if !same(e.name.as_str(), "ProfileChunk") {
        return None;
    }
    array_in(get_opt(get_opt(get_opt(e.args_value(), "data"), "cpuProfile"), "samples"))
}

pub(crate) fn nodes_in(e: &TraceEvent) -> (r: Option<&Vec<Json>>)
    ensures
        list_or_none(r) == chunk_nodes(*e),
{
    if !same(e.name.as_str(), "ProfileChunk") {
        return None;
    }
    array_in(get_opt(get_opt(get_opt(e.args_value(), "data"), "cpuProfile"), "nodes"))
}

/// Whether the trace is within the limits of the arithmetic.
pub fn check_fits(events: &[TraceEvent]) -> (r: bool)
    ensures
        r == profile_fits(events@),
{
    let n = events.len();
    if n > 0xffff_ffff {
        return false;
    }
    let mut i: usize = 0;
    while i < n
        invariant
            n == events@.len(),
            n <= u32::MAX,
            i <= n,
            forall|j: int| 0 <= j < i ==> chunk_deltas(#[trigger] events@[j]).len() <= u32::MAX,
        decreases n - i,
    {
        if let Some(d) = deltas_in(&events[i]) {
            if d.len() > 0xffff_ffff {
                assert(chunk_deltas(events@[i as int]).len() > u32::MAX);
                return false;
            }
        }
        i = i + 1;
    }
    true
}

pub(crate) fn delta_at(j: &Json) -> (r: i64)
    ensures
        r == delta_of(j@),
{
    match j.as_ticks() {
        Some(d) => d,
        None => 0,
    }
}

pub(crate) fn find_start(events: &[TraceEvent], pid: u64) -> (r: Option<i64>)
    ensures
        r == profile_start(events@, pid),
{
    let n = events.len();
    let mut found: Option<i64> = None;
    let mut i: usize = 0;
    assert(events@.take(0) =~= Seq::<TraceEvent>::empty());
    while i < n
        invariant
            n == events@.len(),
            i <= n,
            found == profile_start(events@.take(i as int), pid),
        decreases n - i,
    {
        let e = &events[i];
        assert(events@.take(i + 1).drop_last() =~= events@.take(i as int));
        if found.is_none() && e.ph == PH_PROFILE && e.pid == pid && same(e.name.as_str(), "Profile") {
            found = Some(e.ts);
        }
        i = i + 1;
    }
    assert(events@.take(n as int) =~= events@);
    found
}

proof fn lemma_last_bound(events: Seq<TraceEvent>, n: int, pid: u64)
    requires
        profile_fits(events),
        0 <= n <= events.len(),
    ensures
        -TICK_BOUND * (1 + n * u32::MAX) <= last_sample(events, n, pid) <= TICK_BOUND * (1 + n
            * u32::MAX),
    decreases n,
{
    if n > 0 {
        lemma_last_bound(events, n - 1, pid);
        let d = chunk_deltas(events[n - 1]);
        lemma_delta_bound(d, d.len() as int);
    }
}

fn sum_deltas(deltas: &Vec<Json>) -> (r: i128)
    requires
        deltas@.len() <= u32::MAX,
    ensures
        r == delta_sum(json_views(deltas@), deltas@.len() as int),
{
    let mut sum: i128 = 0;
    let mut k: usize = 0;
    while k < deltas.len()
        invariant
            k <= deltas@.len() <= u32::MAX,
            sum == delta_sum(json_views(deltas@), k as int),
        decreases deltas@.len() - k,
    {
        proof {
            lemma_delta_bound(json_views(deltas@), k as int);
        }
        sum = sum + delta_at(&deltas[k]) as i128;
        k = k + 1;
    }
    sum
}

/// `bases` gives, in order, the events that take part in the walk and the time
/// of their first sample.
pub open spec fn bases_of(events: Seq<TraceEvent>, n: int, bases: Seq<(usize, i128)>) -> bool {
    &&& forall|k: int|
        0 <= k < bases.len() ==> {
            &&& (#[trigger] bases[k]).0 < n
            &&& walks(events[bases[k].0 as int])
            &&& bases[k].1 == chunk_base(events, bases[k].0 as int)
        }
    &&& forall|k: int, l: int| 0 <= k < l < bases.len() ==> (#[trigger] bases[k]).0 < (
    #[trigger] bases[l]).0
    &&& forall|i: int| 0 <= i < n && walks(#[trigger] events[i]) ==> exists|k: int|
        0 <= k < bases.len() && (#[trigger] bases[k]).0 == i
}

/// Sequential walk over the chunks: a chunk alone does not tell its absolute
/// sample times. Each gap is the one before its sample; the walk is anchored
/// per process at the start of its profile.
#[verifier::spinoff_prover]
#[verifier::rlimit(50)]
pub fn profile_chunk_bases(events: &[TraceEvent]) -> (bases: Vec<(usize, i128)>)
    requires
        profile_fits(events@),
    ensures
        bases_of(events@, events@.len() as int, bases@),
{
    let n = events.len();
    let mut bases: Vec<(usize, i128)> = Vec::new();
    let mut pids = IdTable::new();
    let mut lasts: Vec<i128> = Vec::new();
    let mut i: usize = 0;
    while i < n
        invariant
            n == events@.len(),
            i <= n,
            profile_fits(events@),
            bases_of(events@, i as int, bases@),
            pids.wf(),
            lasts@.len() == pids@.len(),
            forall|s: int|
                0 <= s < lasts@.len() ==> (#[trigger] lasts@[s]) == last_sample(
                    events@,
                    i as int,
                    pids@[s],
                ),
            forall|pid: u64|
                !pids@.contains(pid) ==> #[trigger] last_sample(events@, i as int, pid) == last_sample(
                    events@,
                    0,
                    pid,
                ),
        decreases n - i,
    {
        let e = &events[i];
        let ghost before = bases@;
        let ghost lasts0 = lasts@;
        let ghost pids0 = pids@;
        let deltas = deltas_in(e);
        let mut first: Option<i64> = None;
        if let Some(d) = deltas {
            if d.len() > 0 {
                first = d[0].as_ticks();
            }
        }
        if let Some(f) = first {
            let d = deltas.unwrap();
            assert(chunk_deltas(events@[i as int]).len() <= u32::MAX);
            let slot = pids.add(e.pid);
            if slot >= lasts.len() {
                let start: i128 = match find_start(events, e.pid) {
                    Some(t) => t as i128,
                    None => 0,
                };
                lasts.push(start);
                assert(start == last_sample(events@, i as int, e.pid));
            }
            let pl: i128 = lasts[slot];
            assert(pl == last_sample(events@, i as int, e.pid)) by {
                if slot < lasts0.len() {
                    assert(lasts0[slot as int] == last_sample(events@, i as int, pids0[slot as int]));
                }
            }
            proof {
                lemma_last_bound(events@, i as int, e.pid);
                lemma_delta_bound(json_views(d@), d@.len() as int);
                assert(i * u32::MAX <= u32::MAX * u32::MAX) by (nonlinear_arith)
                    requires
                        i <= u32::MAX,
                ;
            }
            bases.push((i, pl + f as i128));
            let next: i128 = pl + sum_deltas(d);
            lasts.set(slot, next);
            proof {
                assert(walks(*e));
                assert(bases@[before.len() as int] == (i, (pl + f) as i128));
                assert forall|x: int| 0 <= x < i + 1 && walks(#[trigger] events@[x]) implies exists|k: int|
                    0 <= k < bases@.len() && (#[trigger] bases@[k]).0 == x by {
                    if x < i {
                        let w = choose|k: int| 0 <= k < before.len() && (#[trigger] before[k]).0 == x;
                        assert(bases@[w].0 == x);
                    }
                }
                assert forall|s: int| 0 <= s < lasts@.len() implies (#[trigger] lasts@[s])
                    == last_sample(events@, i + 1, pids@[s]) by {
                    if s != slot {
                        if pids@[s] == e.pid {
                            pids.lemma_distinct(s, slot as int);
                        }
                        assert(lasts0[s] == last_sample(events@, i as int, pids0[s]));
                        assert(pids@[s] == pids0[s]);
                    }
                }
                assert forall|pid: u64| !pids@.contains(pid) implies #[trigger] last_sample(
                    events@,
                    i + 1,
                    pid,
                ) == last_sample(events@, 0, pid) by {
                    assert(pids@[slot as int] == e.pid);
                    assert(!pids0.contains(pid)) by {
                        if pids0.contains(pid) {
                            let w = choose|w: int| 0 <= w < pids0.len() && pids0[w] == pid;
                            assert(pids@[w] == pid);
                        }
                    }
                    assert(last_sample(events@, i as int, pid) == last_sample(events@, 0, pid));
                }
            }
        } else {
            proof {
                assert(!walks(*e));
                assert forall|pid: u64| #[trigger] last_sample(events@, i + 1, pid) == last_sample(
                    events@,
                    i as int,
                    pid,
                ) by {}
            }
        }
        i = i + 1;
    }
    bases
}

/// The table holds the node of every id.
pub open spec fn nodes_of(events: Seq<TraceEvent>, n: int, t: ProfileNodes) -> bool {
    &&& t.wf()
    &&& forall|id: u64| #[trigger] t.node(id) == node_of(events, id, 0, n)
}

/// Collect the nodes of all chunks.
pub fn scan_nodes(events: &[TraceEvent]) -> (t: ProfileNodes)
    ensures
        nodes_of(events@, events@.len() as int, t),
{
    let n = events.len();
    let mut t = ProfileNodes::new();
    let mut i: usize = 0;
    while i < n
        invariant
            n == events@.len(),
            i <= n,
            nodes_of(events@, i as int, t),
        decreases n - i,
    {
        let e = &events[i];
        let ghost t0 = t;
        let ghost nodes = chunk_nodes(*e);
        if let Some(list) = nodes_in(e) {
            let mut k: usize = 0;
            assert(nodes.take(0) =~= Seq::<JsonView>::empty());
            while k < list.len()
                invariant
                    k <= list@.len(),
                    json_views(list@) == nodes,
                    t.wf(),
                    forall|id: u64| #[trigger]
                        t.node(id) == (if t0.node(id) is Some {
                            t0.node(id)
                        } else {
                            first_in(nodes.take(k as int), id)
                        }),
                decreases list@.len() - k,
            {
                let ghost t1 = t;
                assert(nodes.take(k + 1).drop_last() =~= nodes.take(k as int));
                assert(nodes.take(k + 1).last() == list@[k as int]@);
                t.add(read_node(&list[k]));
                k = k + 1;
            }
            assert(nodes.take(nodes.len() as int) =~= nodes);
        } else {
            assert(nodes =~= Seq::<JsonView>::empty());
        }
        proof {
            assert forall|id: u64| #[trigger] t.node(id) == node_of(events@, id, 0, i + 1) by {
                assert(t0.node(id) == node_of(events@, id, 0, i as int));
            }
        }
        i = i + 1;
    }
    t
}

/// The table holds the self-time of every node.
pub open spec fn times_of(
    events: Seq<TraceEvent>,
    scope: Option<Scope>,
    window: Option<(i64, i64)>,
    n: int,
    t: ProfileSelfTimes,
) -> bool {
    &&& t.wf()
    &&& t.sum() <= TICK_BOUND * (n * u32::MAX)
    &&& forall|id: u64| #[trigger] t.time(id) == self_time(events, scope, window, id, 0, n)
}

/// The scope behind an optional reference.
pub open spec fn scope_opt(s: Option<&Scope>) -> Option<Scope> {
    match s {
        Some(x) => Some(*x),
        None => None,
    }
}

/// Add the samples of one chunk.
fn scan_chunk_samples(
    events: &[TraceEvent],
    i: usize,
    base: i128,
    window: Option<(i64, i64)>,
    t: &mut ProfileSelfTimes,
)
    requires
        profile_fits(events@),
        i < events@.len(),
        base == chunk_base(events@, i as int),
        old(t).wf(),
        old(t).sum() <= TICK_BOUND * (i * u32::MAX),
    ensures
        final(t).wf(),
        final(t).sum() <= TICK_BOUND * ((i + 1) * u32::MAX),
        forall|id: u64| #[trigger]
            final(t).time(id) == old(t).time(id) + chunk_time(
                events@,
                i as int,
                window,
                id,
                sample_count(events@[i as int]) as int,
            ),
{
    let e = &events[i];
    let ghost deltas_v = chunk_deltas(*e);
    let ghost samples_v = chunk_samples(*e);
    let samples = match samples_in(e) {
        Some(v) => v,
        None => {
            return ;
        },
    };
    let deltas = match deltas_in(e) {
        Some(v) => v,
        None => {
            return ;
        },
    };
    let n: usize = if samples.len() <= deltas.len() {
        samples.len()
    } else {
        deltas.len()
    };
    let mut ts: i128 = base;
    let mut k: usize = 0;
    let ghost t0 = *t;
    proof {
        assert(chunk_deltas(events@[i as int]).len() <= u32::MAX);
        assert(i * u32::MAX + u32::MAX <= u32::MAX * u32::MAX) by (nonlinear_arith)
            requires
                i < u32::MAX,
        ;
        assert((i + 1) * u32::MAX == i * u32::MAX + u32::MAX) by (nonlinear_arith);
        lemma_last_bound(events@, i as int, e.pid);
    }
    while k < n
        invariant
            profile_fits(events@),
            i < events@.len(),
            e == events@[i as int],
            n == sample_count(*e),
            n <= u32::MAX,
            json_views(samples@) == chunk_samples(*e),
            json_views(deltas@) == deltas_v,
            deltas_v == chunk_deltas(*e),
            n <= samples@.len(),
            n <= deltas@.len(),
            k <= n,
            base == chunk_base(events@, i as int),
            -TICK_BOUND * (2 + i * u32::MAX) <= base <= TICK_BOUND * (2 + i * u32::MAX),
            i * u32::MAX + u32::MAX <= u32::MAX * u32::MAX,
            ts == base + delta_sum(deltas_v, k as int),
            t.wf(),
            t.sum() <= TICK_BOUND * (i * u32::MAX + k),
            forall|id: u64| #[trigger]
                t.time(id) == t0.time(id) + chunk_time(events@, i as int, window, id, k as int),
        decreases n - k,
    {
        proof {
            lemma_delta_bound(deltas_v, k as int);
            assert(deltas_v[k as int] == deltas@[k as int]@);
            assert(chunk_samples(*e)[k as int] == samples@[k as int]@);
        }
        let d = delta_at(&deltas[k]);
        if d > 0 && is_in_window(window, ts) {
            let id: u64 = match samples[k].as_u64() {
                Some(v) => v,
                None => 0,
            };
            t.add(id, d as i128);
        }
        proof {
            let iu: int = i * u32::MAX;
            let ds: int = delta_sum(deltas_v, k as int);
            assert(-TICK_BOUND * (2 + iu + k) <= base + ds <= TICK_BOUND * (2 + iu + k))
                by (nonlinear_arith)
                requires
                    -TICK_BOUND * (2 + iu) <= base <= TICK_BOUND * (2 + iu),
                    -TICK_BOUND * k <= ds <= TICK_BOUND * k,
            ;
            assert(2 + i * u32::MAX + k + 1 <= 0x1_0000_0000_0000_0000 - 1);
        }
        ts = ts + d as i128;
        k = k + 1;
    }
    assert(TICK_BOUND * (i * u32::MAX + n) <= TICK_BOUND * ((i + 1) * u32::MAX));
}

/// Self-time by node for one window.
fn scan_window(
    events: &[TraceEvent],
    scope: Option<&Scope>,
    window: Option<(i64, i64)>,
    bases: &Vec<(usize, i128)>,
) -> (t: ProfileSelfTimes)
    requires
        profile_fits(events@),
        bases_of(events@, events@.len() as int, bases@),
    ensures
        times_of(events@, scope_opt(scope), window, events@.len() as int, t),
{
    let n = events.len();
    let mut t = ProfileSelfTimes::new();
    let mut next: usize = 0;
    let mut i: usize = 0;
    while i < n
        invariant
            n == events@.len(),
            i <= n,
            profile_fits(events@),
            bases_of(events@, n as int, bases@),
            next <= bases@.len(),
            forall|k: int| 0 <= k < next ==> (#[trigger] bases@[k]).0 < i,
            forall|k: int| next <= k < bases@.len() ==> (#[trigger] bases@[k]).0 >= i,
            times_of(events@, scope_opt(scope), window, i as int, t),
        decreases n - i,
    {
        let e = &events[i];
        let mut base: i128 = 0;
        if next < bases.len() && bases[next].0 == i {
            base = bases[next].1;
            next = next + 1;
            assert forall|k: int| next <= k < bases@.len() implies (#[trigger] bases@[k]).0 >= i + 1 by {
                assert(bases@[next - 1].0 < bases@[k].0);
            }
        } else {
            proof {
                if walks(*e) {
                    let w = choose|k: int| 0 <= k < bases@.len() && (#[trigger] bases@[k]).0 == i;
                    assert(bases@[w].0 == i);
                    if w > next {
                        assert(bases@[next as int].0 < bases@[w].0);
                    }
                }
                assert forall|k: int| next <= k < bases@.len() implies (#[trigger] bases@[k]).0 >= i
                    + 1 by {
                    if k > next {
                        assert(bases@[next as int].0 < bases@[k].0);
                    }
                }
            }
        }
        assert(base == chunk_base(events@, i as int));
        let held = match scope {
            Some(s) => s.allows_chunk(e),
            None => true,
        };
        let ghost t0 = t;
        proof {
            assert((i + 1) * u32::MAX >= i * u32::MAX) by (nonlinear_arith);
        }
        if held {
            scan_chunk_samples(events, i, base, window, &mut t);
        }
        proof {
            assert forall|id: u64| #[trigger] t.time(id) == self_time(
                events@,
                scope_opt(scope),
                window,
                id,
                0,
                i + 1,
            ) by {
                assert(t0.time(id) == self_time(events@, scope_opt(scope), window, id, 0, i as int));
            }
        }
        i = i + 1;
    }
    t
}

/// Scan the chunks of a trace: the node table, and the self-times of the
/// scope's window.
pub fn scan_profile_chunks(events: &[TraceEvent], scope: Option<&Scope>) -> (r: (
    ProfileNodes,
    ProfileSelfTimes,
))
    requires
        profile_fits(events@),
    ensures
        nodes_of(events@, events@.len() as int, r.0),
        times_of(
            events@,
            scope_opt(scope),
            match scope {
                Some(s) => s.window,
                None => None,
            },
            events@.len() as int,
            r.1,
        ),
{
    let window = match scope {
        Some(s) => s.window,
        None => None,
    };
    let bases = profile_chunk_bases(events);
    (scan_nodes(events), scan_window(events, scope, window, &bases))
}

/// Like `scan_profile_chunks`, but with one table of self-times per window:
/// each sample counts in every window it falls into, and in every table
/// without one. The scope's own window does not count.
pub fn scan_profile_chunks_windows(
    events: &[TraceEvent],
    scope: Option<&Scope>,
    windows: &Vec<Option<(i64, i64)>>,
) -> (r: (ProfileNodes, Vec<ProfileSelfTimes>))
    requires
        profile_fits(events@),
    ensures
        nodes_of(events@, events@.len() as int, r.0),
        r.1@.len() == windows@.len(),
        forall|w: int|
            0 <= w < windows@.len() ==> times_of(
                events@,
                scope_opt(scope),
                windows@[w],
                events@.len() as int,
                #[trigger] r.1@[w],
            ),
{
    let bases = profile_chunk_bases(events);
    let mut all: Vec<ProfileSelfTimes> = Vec::new();
    let mut w: usize = 0;
    while w < windows.len()
        invariant
            w <= windows@.len(),
            profile_fits(events@),
            bases_of(events@, events@.len() as int, bases@),
            all@.len() == w,
            forall|k: int|
                0 <= k < w ==> times_of(
                    events@,
                    scope_opt(scope),
                    windows@[k],
                    events@.len() as int,
                    #[trigger] all@[k],
                ),
        decreases windows@.len() - w,
    {
        all.push(scan_window(events, scope, windows[w], &bases));
        w = w + 1;
    }
    (scan_nodes(events), all)
}

/// A function with its self-time.
pub struct FunctionTime {
    pub function_name: String,
    pub url: String,
    pub self_time: i128,
    pub source_type: SourceType,
}

/// The sampled functions, the most self-time first, with sums by source.
pub struct CpuProfileResult {
    pub functions: Vec<FunctionTime>,
    pub total_sample_time: i128,
    pub app_time: i128,
    pub runtime_time: i128,
    pub native_time: i128,
}

/// The name and address of a node; empty where it is not known.
pub open spec fn node_name(nodes: ProfileNodes, id: u64) -> Seq<char> {
    match nodes.node(id) {
        Some(n) => n.name,
        None => Seq::empty(),
    }
}

pub open spec fn node_url(nodes: ProfileNodes, id: u64) -> Seq<char> {
    match nodes.node(id) {
        Some(n) => n.url,
        None => Seq::empty(),
    }
}

pub open spec fn node_source(nodes: ProfileNodes, id: u64) -> SourceType {
    source_of(node_url(nodes, id), lowercased(node_url(nodes, id)))
}

/// The self-time of a node.
pub open spec fn time_by_id(times: ProfileSelfTimes) -> spec_fn(u64) -> int {
    |id: u64| times.time(id)
}

/// The self-time of a node of one source.
pub open spec fn time_by_source(nodes: ProfileNodes, times: ProfileSelfTimes, s: SourceType) -> spec_fn(
    u64,
) -> int {
    |id: u64|
        if node_source(nodes, id) == s {
            times.time(id)
        } else {
            0
        }
}

/// The function of a node.
pub open spec fn function_of(nodes: ProfileNodes, times: ProfileSelfTimes, id: u64, f: FunctionTime) -> bool {
    &&& f.function_name@ == node_name(nodes, id)
    &&& f.url@ == node_url(nodes, id)
    &&& f.self_time == times.time(id)
    &&& f.source_type == node_source(nodes, id)
}

pub open spec fn id_times(times: ProfileSelfTimes) -> Seq<i128> {
    times.sampled().map_values(|id: u64| times.time(id) as i128)
}

/// What each field of the result says.
pub open spec fn profile_result(nodes: ProfileNodes, times: ProfileSelfTimes, r: CpuProfileResult) -> bool {
    let ids = times.sampled();
    &&& exists|p: Seq<usize>|
        {
            &&& #[trigger] orders(id_times(times), true, p)
            &&& r.functions@.len() == p.len()
            &&& forall|i: int|
                0 <= i < p.len() ==> function_of(
                    nodes,
                    times,
                    ids[p[i] as int],
                    #[trigger] r.functions@[i],
                )
        }
    &&& r.total_sample_time == total(ids, time_by_id(times))
    &&& r.app_time == total(ids, time_by_source(nodes, times, SourceType::AppCode))
    &&& r.runtime_time == total(ids, time_by_source(nodes, times, SourceType::Runtime))
    &&& r.native_time == total(ids, time_by_source(nodes, times, SourceType::Native))
}

/// The times by source add up to the time of all samples.
pub proof fn lemma_sources_add_up(nodes: ProfileNodes, times: ProfileSelfTimes, ids: Seq<u64>)
    ensures
        total(ids, time_by_source(nodes, times, SourceType::AppCode)) + total(
            ids,
            time_by_source(nodes, times, SourceType::Runtime),
        ) + total(ids, time_by_source(nodes, times, SourceType::Native)) == total(
            ids,
            time_by_id(times),
        ),
    decreases ids.len(),
{
    if ids.len() > 0 {
        lemma_sources_add_up(nodes, times, ids.drop_last());
    }
}

impl ProfileSelfTimes {
    /// The self-times of the first `k` listed nodes are part of the sum.
    pub proof fn lemma_partial(&self, nodes: ProfileNodes, k: int)
        requires
            self.wf(),
            0 <= k <= self.sampled().len(),
        ensures
            0 <= total(self.sampled().take(k), time_by_id(*self)) <= self.sum(),
            k == self.sampled().len() ==> total(self.sampled(), time_by_id(*self)) == self.sum(),
    {
        let f = |t: i128| same_time(t);
        self.lemma_same_sums(k);
        self.lemma_prefix_sum(k);
        assert(self.sampled().take(self.sampled().len() as int) =~= self.sampled());
        assert(self.times@.take(self.times@.len() as int) =~= self.times@);
    }

    proof fn lemma_same_sums(&self, k: int)
        requires
            self.wf(),
            0 <= k <= self.ids@.len(),
        ensures
            total(self.ids@.take(k), time_by_id(*self)) == total(
                self.times@.take(k),
                |t: i128| same_time(t),
            ),
            total(self.ids@.take(k), time_by_id(*self)) >= 0,
        decreases k,
    {
        if k > 0 {
            self.lemma_same_sums(k - 1);
            lemma_total_step(self.ids@, time_by_id(*self), k - 1);
            lemma_total_step(self.times@, |t: i128| same_time(t), k - 1);
            lemma_slot_in(self.ids@, self.ids@[k - 1]);
            self.ids.lemma_distinct(k - 1, slot_in(self.ids@, self.ids@[k - 1])->0);
            assert(self.times@[k - 1] > 0);
        }
    }

    proof fn lemma_prefix_sum(&self, k: int)
        requires
            self.wf(),
            0 <= k <= self.times@.len(),
        ensures
            total(self.times@.take(k), |t: i128| same_time(t)) <= self.sum(),
        decreases self.times@.len() - k,
    {
        if k < self.times@.len() {
            self.lemma_prefix_sum(k + 1);
            lemma_total_step(self.times@, |t: i128| same_time(t), k);
            assert(self.times@[k] > 0);
        } else {
            assert(self.times@.take(k) =~= self.times@);
        }
    }
}

proof fn lemma_source_partial(
    nodes: ProfileNodes,
    times: ProfileSelfTimes,
    s: SourceType,
    ids: Seq<u64>,
)
    requires
        times.wf(),
    ensures
        0 <= total(ids, time_by_source(nodes, times, s)) <= total(ids, time_by_id(times)),
    decreases ids.len(),
{
    if ids.len() > 0 {
        lemma_source_partial(nodes, times, s, ids.drop_last());
        times.lemma_time_listed(ids.last());
    }
}

/// The function of a listed node.
fn describe(nodes: &ProfileNodes, times: &ProfileSelfTimes, id: u64, time: i128) -> (r: FunctionTime)
    requires
        nodes.wf(),
        time == times.time(id),
    ensures
        function_of(*nodes, *times, id, r),
{
    match nodes.get(id) {
        Some(n) => FunctionTime {
            function_name: n.name.clone(),
            url: n.url.clone(),
            self_time: time,
            source_type: classify_url(n.url.as_str()),
        },
        None => {
            let url = String::new();
            let source_type = classify_url(url.as_str());
            FunctionTime { function_name: String::new(), url, self_time: time, source_type }
        },
    }
}

/// Describe the sampled functions.
pub fn build_cpu_profile_result(nodes: &ProfileNodes, times: &ProfileSelfTimes) -> (r: CpuProfileResult)
    requires
        nodes.wf(),
        times.wf(),
        times.sum() <= SUM_BOUND,
    ensures
        profile_result(*nodes, *times, r),
{
    let n = times.len();
    let ghost ids = times.sampled();
    let mut keys: Vec<i128> = Vec::new();
    let mut all: i128 = 0;
    let mut app: i128 = 0;
    let mut runtime: i128 = 0;
    let mut native: i128 = 0;
    let ghost fa = time_by_source(*nodes, *times, SourceType::AppCode);
    let ghost fr = time_by_source(*nodes, *times, SourceType::Runtime);
    let ghost fnat = time_by_source(*nodes, *times, SourceType::Native);
    let ghost ft = time_by_id(*times);
    let mut i: usize = 0;
    assert(ids.take(0) =~= Seq::<u64>::empty());
    while i < n
        invariant
            n == ids.len(),
            i <= n,
            ids == times.sampled(),
            nodes.wf(),
            times.wf(),
            times.sum() <= SUM_BOUND,
            fa == time_by_source(*nodes, *times, SourceType::AppCode),
            fr == time_by_source(*nodes, *times, SourceType::Runtime),
            fnat == time_by_source(*nodes, *times, SourceType::Native),
            ft == time_by_id(*times),
            keys@.len() == i,
            forall|k: int| 0 <= k < i ==> (#[trigger] keys@[k]) == times.time(ids[k]),
            all == total(ids.take(i as int), ft),
            app == total(ids.take(i as int), fa),
            runtime == total(ids.take(i as int), fr),
            native == total(ids.take(i as int), fnat),
        decreases n - i,
    {
        let (id, time) = times.entry(i);
        let f = describe(nodes, times, id, time);
        proof {
            times.lemma_partial(*nodes, i + 1);
            lemma_total_step(ids, ft, i as int);
            lemma_total_step(ids, fa, i as int);
            lemma_total_step(ids, fr, i as int);
            lemma_total_step(ids, fnat, i as int);
            lemma_source_partial(*nodes, *times, SourceType::AppCode, ids.take(i + 1));
            lemma_source_partial(*nodes, *times, SourceType::Runtime, ids.take(i + 1));
            lemma_source_partial(*nodes, *times, SourceType::Native, ids.take(i + 1));
            lemma_source_partial(*nodes, *times, SourceType::AppCode, ids.take(i as int));
            lemma_source_partial(*nodes, *times, SourceType::Runtime, ids.take(i as int));
            lemma_source_partial(*nodes, *times, SourceType::Native, ids.take(i as int));
            times.lemma_partial(*nodes, i as int);
        }
        keys.push(time);
        all = all + time;
        match f.source_type {
            SourceType::AppCode => {
                app = app + time;
            },
            SourceType::Runtime => {
                runtime = runtime + time;
            },
            SourceType::Native => {
                native = native + time;
            },
        }
        i = i + 1;
    }
    assert(ids.take(n as int) =~= ids);
    assert(keys@ =~= id_times(*times));
    let p = order(&keys, true);
    let mut functions: Vec<FunctionTime> = Vec::new();
    let mut k: usize = 0;
    while k < p.len()
        invariant
            k <= p@.len(),
            n == ids.len(),
            ids == times.sampled(),
            nodes.wf(),
            times.wf(),
            keys@.len() == n,
            orders(keys@, true, p@),
            functions@.len() == k,
            forall|j: int|
                0 <= j < k ==> function_of(
                    *nodes,
                    *times,
                    ids[p@[j] as int],
                    #[trigger] functions@[j],
                ),
        decreases p@.len() - k,
    {
        let slot = p[k];
        let (id, time) = times.entry(slot);
        functions.push(describe(nodes, times, id, time));
        k = k + 1;
    }
    CpuProfileResult {
        functions,
        total_sample_time: all,
        app_time: app,
        runtime_time: runtime,
        native_time: native,
    }
}

/// The profile of the whole trace, kept for queries that look at all of it.
pub struct CpuProfileCache {
    pub nodes: ProfileNodes,
    pub self_times: ProfileSelfTimes,
}

/// The cache is that of the trace.
pub open spec fn cache_of(events: Seq<TraceEvent>, c: CpuProfileCache) -> bool {
    &&& nodes_of(events, events.len() as int, c.nodes)
    &&& times_of(events, None, None, events.len() as int, c.self_times)
}

impl CpuProfileCache {
    /// Whether the scope is the full trace, so that the cache applies.
    pub fn serves(&self, scope: &Scope) -> (r: bool)
        ensures
            r == is_full(*scope),
    {
        scope.window.is_none() && scope.tid.is_none() && scope.pid.is_none() && scope.cat.is_none()
    }
}

pub(crate) proof fn lemma_fits_sum(n: int, s: int)
    requires
        0 <= n <= u32::MAX,
        s <= TICK_BOUND * (n * u32::MAX),
    ensures
        s <= SUM_BOUND,
{
    assert(TICK_BOUND * (n * u32::MAX) <= TICK_BOUND * (u32::MAX * u32::MAX)) by (nonlinear_arith)
        requires
            0 <= n <= u32::MAX,
    ;
}

/// Profile of the whole trace, with its cache.
pub fn analyze_cpu_profile_full(events: &[TraceEvent]) -> (r: (CpuProfileResult, CpuProfileCache))
    requires
        profile_fits(events@),
    ensures
        cache_of(events@, r.1),
        profile_result(r.1.nodes, r.1.self_times, r.0),
{
    let (nodes, self_times) = scan_profile_chunks(events, None);
    proof {
        lemma_fits_sum(events@.len() as int, self_times.sum());
    }
    let result = build_cpu_profile_result(&nodes, &self_times);
    (result, CpuProfileCache { nodes, self_times })
}

/// Profile of the whole trace.
pub fn analyze_cpu_profile(events: &[TraceEvent]) -> (r: CpuProfileResult)
    requires
        profile_fits(events@),
    ensures
        exists|c: CpuProfileCache| #[trigger]
            cache_of(events@, c) && profile_result(c.nodes, c.self_times, r),
{
    let (r, c) = analyze_cpu_profile_full(events);
    assert(cache_of(events@, c) && profile_result(c.nodes, c.self_times, r));
    r
}

/// A profile, kept or new.
pub enum Profile<'a> {
    Kept(&'a CpuProfileCache),
    Fresh(CpuProfileCache),
}

impl<'a> Profile<'a> {
    pub open spec fn data(&self) -> CpuProfileCache {
        match self {
            Profile::Kept(c) => **c,
            Profile::Fresh(c) => *c,
        }
    }

    /// The node table and self-times.
    pub fn get(&self) -> (r: &CpuProfileCache)
        ensures
            *r == self.data(),
    {
        match self {
            Profile::Kept(c) => c,
            Profile::Fresh(c) => c,
        }
    }
}

/// A scope without limits changes no self-time.
pub proof fn lemma_full_scope(events: Seq<TraceEvent>, scope: Scope, id: u64, from: int, n: int)
    requires
        is_full(scope),
    ensures
        self_time(events, Some(scope), None, id, from, n) == self_time(
            events,
            None,
            None,
            id,
            from,
            n,
        ),
    decreases n - from,
{
    if from < n {
        lemma_full_scope(events, scope, id, from, n - 1);
    }
}

/// Node table and self-times for a scope: the kept ones when the scope is the
/// full trace, otherwise from a new scan. Either way they are what a scan of
/// the scope gives.
pub fn cpu_profile_for<'a>(events: &[TraceEvent], scope: &Scope, cache: Option<&'a CpuProfileCache>) -> (r:
    Profile<'a>)
    requires
        profile_fits(events@),
        cache matches Some(c) ==> cache_of(events@, *c),
    ensures
        nodes_of(events@, events@.len() as int, r.data().nodes),
        times_of(
            events@,
            Some(*scope),
            scope.window,
            events@.len() as int,
            r.data().self_times,
        ),
        r is Kept <==> cache is Some && is_full(*scope),
{
    if let Some(c) = cache {
        if c.serves(scope) {
            proof {
                let n = events@.len() as int;
                assert forall|id: u64| #[trigger] c.self_times.time(id) == self_time(
                    events@,
                    Some(*scope),
                    scope.window,
                    id,
                    0,
                    n,
                ) by {
                    lemma_full_scope(events@, *scope, id, 0, n);
                }
            }
            return Profile::Kept(c);
        }
    }
    let (nodes, self_times) = scan_profile_chunks(events, Some(scope));
    Profile::Fresh(CpuProfileCache { nodes, self_times })
}

/// No id is listed twice.
pub open spec fn distinct_ids(ids: Seq<u64>) -> bool {
    forall|i: int, j: int| 0 <= i < j < ids.len() ==> (#[trigger] ids[i]) != (#[trigger] ids[j])
}

impl ProfileSelfTimes {
    /// The listed times that belong to one of `ids`.
    closed spec fn covered(&self, ids: Seq<u64>) -> spec_fn(int) -> int {
        |j: int|
            if ids.contains(self.ids@[j]) {
                self.times@[j] as int
            } else {
                0
            }
    }

    closed spec fn covered_sum(&self, ids: Seq<u64>, k: int) -> int
        decreases k,
    {
        if k <= 0 {
            0
        } else {
            self.covered_sum(ids, k - 1) + (self.covered(ids))(k - 1)
        }
    }

    proof fn lemma_covered_bound(&self, ids: Seq<u64>, k: int)
        requires
            self.wf(),
            0 <= k <= self.times@.len(),
        ensures
            self.covered_sum(ids, k) <= total(self.times@.take(k), |t: i128| same_time(t)),
        decreases k,
    {
        if k > 0 {
            self.lemma_covered_bound(ids, k - 1);
            lemma_total_step(self.times@, |t: i128| same_time(t), k - 1);
            assert(self.times@[k - 1] > 0);
        } else {
            assert(self.times@.take(0) =~= Seq::<i128>::empty());
        }
    }

    proof fn lemma_covered_push(&self, ids: Seq<u64>, x: u64, k: int)
        requires
            self.wf(),
            !ids.contains(x),
            0 <= k <= self.times@.len(),
        ensures
            self.covered_sum(ids.push(x), k) == self.covered_sum(ids, k) + (match slot_in(
                self.ids@,
                x,
            ) {
                Some(i) => if i < k {
                    self.times@[i] as int
                } else {
                    0
                },
                None => 0,
            }),
        decreases k,
    {
        lemma_slot_in(self.ids@, x);
        if k > 0 {
            self.lemma_covered_push(ids, x, k - 1);
            let id = self.ids@[k - 1];
            assert(ids.push(x).contains(id) <==> ids.contains(id) || id == x) by {
                if ids.contains(id) {
                    let w = choose|w: int| 0 <= w < ids.len() && ids[w] == id;
                    assert(ids.push(x)[w] == id);
                }
                if ids.push(x).contains(id) && id != x {
                    let w = choose|w: int| 0 <= w < ids.push(x).len() && ids.push(x)[w] == id;
                    assert(ids[w] == id);
                }
                assert(ids.push(x)[ids.len() as int] == x);
            }
            if id == x {
                self.ids.lemma_distinct(k - 1, slot_in(self.ids@, x)->0);
            }
        }
    }

    proof fn lemma_covers_all(&self, ids: Seq<u64>)
        requires
            self.wf(),
            distinct_ids(ids),
        ensures
            total(ids, time_by_id(*self)) == self.covered_sum(ids, self.times@.len() as int),
        decreases ids.len(),
    {
        if ids.len() > 0 {
            let t = ids.drop_last();
            let x = ids.last();
            assert forall|i: int, j: int| 0 <= i < j < t.len() implies (#[trigger] t[i]) != (
            #[trigger] t[j]) by {
                assert(ids[i] != ids[j]);
            }
            self.lemma_covers_all(t);
            assert(!t.contains(x)) by {
                if t.contains(x) {
                    let w = choose|w: int| 0 <= w < t.len() && t[w] == x;
                    assert(ids[w] != ids[ids.len() - 1]);
                }
            }
            self.lemma_covered_push(t, x, self.times@.len() as int);
            assert(t.push(x) =~= ids);
            lemma_slot_in(self.ids@, x);
        } else {
            self.lemma_covered_none(ids, self.times@.len() as int);
        }
    }

    proof fn lemma_covered_none(&self, ids: Seq<u64>, k: int)
        requires
            ids.len() == 0,
        ensures
            self.covered_sum(ids, k) == 0,
        decreases k,
    {
        if k > 0 {
            self.lemma_covered_none(ids, k - 1);
        }
    }

    /// The self-times of distinct nodes are together no more than all.
    pub proof fn lemma_distinct_sum(&self, ids: Seq<u64>)
        requires
            self.wf(),
            distinct_ids(ids),
        ensures
            total(ids, time_by_id(*self)) <= self.sum(),
    {
        self.lemma_covers_all(ids);
        self.lemma_covered_bound(ids, self.times@.len() as int);
        assert(self.times@.take(self.times@.len() as int) =~= self.times@);
    }
}

} // verus!
