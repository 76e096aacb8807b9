//! Searches in event arguments and in the names of the sampled profile.

use vstd::prelude::*;
use vstd::string::StringSliceAdditionalSpecFns;
use vstd::slice::slice_subrange;
use vstd::utf8::{decode_utf8, encode_utf8, valid_utf8};
use crate::analysis::common::{dur_of, dur_or_zero};
use crate::analysis::cpu::{
    cache_of,
    cpu_profile_for,
    nodes_of,
    profile_fits,
    times_of,
    CpuProfileCache,
    ProfileNode,
    ProfileNodes,
    ProfileSelfTimes,
};
use crate::compact::{compact, compact_text};
use crate::doc::{doc_view, make_ms, put, put_num, put_u64, Doc, PieceView};
use crate::inspect::events::{shown_rows, sort_by_ts, sorted_events, Sort};
use crate::inspect::group::{positions, positions_in};
use crate::json::JsonView;
use crate::matcher::{
    find_first,
    matcher_label,
    matches_text,
    regex_first,
    regex_pattern,
    value_has,
    value_matches,
    Matcher,
};
use crate::render::{more_pieces, ms, put_more, short_url, txt};
use crate::scope::{allows, Scope};
use crate::sort::{order, orders};
use crate::text::{after_slash, chars_of, decimal, find_sub, has_sub, lowercased, stands_at, string_of};
use crate::trace::event::TraceEvent;
use crate::windowed::calltree::shown_name;

verus! {

/// The first position from `i` on where `pat` stands in `s`.
pub open spec fn first_from(s: Seq<char>, pat: Seq<char>, i: int) -> Option<int>
    decreases s.len() + 1 - i,
{
    if i < 0 || i > s.len() {
        None
    } else if stands_at(s, pat, i) {
        Some(i)
    } else {
        first_from(s, pat, i + 1)
    }
}

proof fn lemma_first_found(s: Seq<char>, pat: Seq<char>, i: int, at: int)
    requires
        0 <= i <= at <= s.len(),
        stands_at(s, pat, at),
        forall|j: int| 0 <= j < at ==> !#[trigger] stands_at(s, pat, j),
    ensures
        first_from(s, pat, i) == Some(at),
    decreases at - i,
{
    if i < at {
        lemma_first_found(s, pat, i + 1, at);
    }
}

proof fn lemma_first_none(s: Seq<char>, pat: Seq<char>, i: int)
    requires
        0 <= i,
        !has_sub(s, pat),
    ensures
        first_from(s, pat, i) is None,
    decreases s.len() + 1 - i,
{
    if i <= s.len() {
        lemma_first_none(s, pat, i + 1);
    }
}

/// Sixty characters before position `idx`, and as many behind the `len` from
/// there.
pub open spec fn around(s: Seq<char>, idx: int, len: int) -> Seq<char> {
    let start = if idx < 60 {
        0
    } else {
        idx - 60
    };
    let end = if idx + len + 60 < s.len() {
        idx + len + 60
    } else {
        s.len() as int
    };
    s.subrange(start, end)
}

/// The characters around a match.
pub fn snippet_around(s: &str, idx: usize, len: usize) -> (r: String)
    requires
        idx <= s@.len() + 60,
    ensures
        r@ == around(s@, idx as int, len as int),
{
    let c = chars_of(s);
    let n = c.len();
    let start: usize = if idx < 60 {
        0
    } else {
        idx - 60
    };
    let end: usize = if idx >= n || len >= n - idx || 60 >= n - idx - len {
        n
    } else {
        idx + len + 60
    };
    string_of(&c, start, end)
}

/// The place of the character that stands at place `k` of the lower-case text:
/// a character may have several in lower case.
pub open spec fn lower_place(text: Seq<char>, k: int, i: int) -> int
    decreases text.len() - i,
{
    if i < 0 || i >= text.len() || k < lowercased(seq![text[i]]).len() {
        i
    } else {
        lower_place(text, k - lowercased(seq![text[i]]).len(), i + 1)
    }
}

/// The place in the text that belongs to place `k` of the lower-case text.
pub open spec fn place_of(text: Seq<char>, k: int) -> int {
    if lowercased(text).len() == text.len() {
        k
    } else {
        lower_place(text, k, 0)
    }
}

fn find_place(text: &str, lower_len: usize, k: usize) -> (r: usize)
    requires
        lower_len == lowercased(text@).len(),
        k <= lower_len,
    ensures
        r == place_of(text@, k as int),
        r <= text@.len(),
{
    let c = chars_of(text);
    if lower_len == c.len() {
        return k;
    }
    let mut left: usize = k;
    let mut i: usize = 0;
    while i < c.len()
        invariant
            c@ == text@,
            lowercased(text@).len() != text@.len(),
            i <= c@.len(),
            lower_place(text@, k as int, 0) == lower_place(text@, left as int, i as int),
        decreases c@.len() - i,
    {
        let mut one = String::new();
        one.push(c[i]);
        assert(one@ =~= seq![text@[i as int]]);
        let n = chars_of(one.as_str().to_lowercase().as_str()).len();
        if left < n {
            return i;
        }
        left = left - n;
        i = i + 1;
    }
    i
}

/// How many characters the first `b` bytes of a text hold.
pub open spec fn chars_in(text: Seq<char>, b: int) -> int {
    let head = encode_utf8(text).take(b);
    if valid_utf8(head) {
        decode_utf8(head).len() as int
    } else {
        0
    }
}

fn count_chars(text: &str, b: usize) -> (r: usize)
    requires
        b <= encode_utf8(text@).len(),
    ensures
        r == chars_in(text@, b as int),
{
    let bytes = text.as_bytes();
    let head = slice_subrange(bytes, 0, b);
    assert(head@ =~= encode_utf8(text@).take(b as int));
    match core::str::from_utf8(head) {
        Ok(s) => chars_of(s).len(),
        Err(_) => 0,
    }
}

/// Place and length of what matches, in characters; the start where nothing
/// does.
pub open spec fn match_span(m: Matcher, text: Seq<char>) -> (int, int) {
    match m {
        Matcher::Substr(p) => (
            match first_from(lowercased(text), p@, 0) {
                Some(k) => place_of(text, k),
                None => 0,
            },
            p@.len() as int,
        ),
        Matcher::Regex(re) => match regex_first(regex_pattern(re), text) {
            Some((start, len)) => (
                chars_in(text, start as int),
                chars_in(text, start + len) - chars_in(text, start as int),
            ),
            None => (0, 0),
        },
    }
}

/// The characters around what matches.
pub open spec fn around_match(m: Matcher, text: Seq<char>) -> Seq<char> {
    let (idx, len) = match_span(m, text);
    around(
        text,
        if idx > text.len() {
            text.len() as int
        } else {
            idx
        },
        if len < 0 {
            0
        } else {
            len
        },
    )
}

fn find_around(m: &Matcher, text: &str) -> (r: String)
    ensures
        r@ == around_match(*m, text@),
{
    let n = chars_of(text).len();
    let (idx, len): (usize, usize) = match m {
        Matcher::Substr(p) => {
            let lower = text.to_lowercase();
            let c = chars_of(lower.as_str());
            let pat = chars_of(p.as_str());
            match find_sub(&c, &pat) {
                Some(k) => {
                    proof {
                        lemma_first_found(lower@, p@, 0, k as int);
                    }
                    (find_place(text, c.len(), k), pat.len())
                },
                None => {
                    proof {
                        lemma_first_none(lower@, p@, 0);
                    }
                    (0, pat.len())
                },
            }
        },
        Matcher::Regex(re) => match find_first(re, text) {
            Some((start, len)) => {
                let all = text.as_bytes().len();
                assert(start + len <= all);
                let a = count_chars(text, start);
                let b = count_chars(text, start + len);
                (
                    a,
                    if b > a {
                        b - a
                    } else {
                        0
                    },
                )
            },
            None => (0, 0),
        },
    };
    let at: usize = if idx > n {
        n
    } else {
        idx
    };
    snippet_around(text, at, len)
}

/// What is shown of the arguments that match: all of them, or what stands
/// around the match.
pub open spec fn snippet(v: JsonView, m: Matcher, full: bool) -> Seq<char> {
    if full {
        compact(v)
    } else {
        around_match(m, compact(v))
    }
}

/// The scope holds the event, and its arguments match.
pub open spec fn is_find(m: Matcher, scope: Scope) -> spec_fn(TraceEvent) -> bool {
    |e: TraceEvent|
        allows(scope, e) && (e@.said() matches Some(v) && value_has(v, m))
}

fn select_finds(events: &[TraceEvent], m: &Matcher, scope: &Scope) -> (p: Vec<usize>)
    ensures
        p@ == positions(events@, is_find(*m, *scope)),
        positions_in(p@, events@.len()),
        forall|k: int|
            0 <= k < p@.len() ==> events@[(#[trigger] p@[k]) as int]@.said() is Some,
{
    let n = events.len();
    let ghost f = is_find(*m, *scope);
    let mut p: Vec<usize> = Vec::new();
    let mut i: usize = 0;
    assert(events@.take(0) =~= Seq::<TraceEvent>::empty());
    while i < n
        invariant
            n == events@.len(),
            i <= n,
            f == is_find(*m, *scope),
            p@ == positions(events@.take(i as int), f),
            positions_in(p@, i as nat),
            forall|k: int|
                0 <= k < p@.len() ==> events@[(#[trigger] p@[k]) as int]@.said() is Some,
        decreases n - i,
    {
        let e = &events[i];
        assert(events@.take(i + 1).drop_last() =~= events@.take(i as int));
        if scope.allows_event(e) {
            match e.args_value() {
                Some(v) => {
                    if value_matches(v, m) {
                        p.push(i);
                    }
                },
                None => {},
            }
        }
        i = i + 1;
    }
    assert(events@.take(n as int) =~= events@);
    p
}

/// An event whose arguments match.
pub struct FindRow {
    /// Its position in the trace.
    pub at: usize,
    /// What is shown of its arguments.
    pub snippet: String,
}

pub open spec fn find_row(events: Seq<TraceEvent>, at: usize, m: Matcher, full: bool, r: FindRow) -> bool {
    &&& r.at == at
    &&& r.snippet@ == snippet(events[at as int]@.said()->0, m, full)
}

/// The events of the scope whose arguments match, by start.
pub open spec fn finds_of(
    events: Seq<TraceEvent>,
    m: Matcher,
    scope: Scope,
    full: bool,
    rows: Seq<FindRow>,
) -> bool {
    exists|q: Seq<usize>|
        {
            &&& #[trigger] sorted_events(events, positions(events, is_find(m, scope)), Sort::Ts, q)
            &&& rows.len() == q.len()
            &&& forall|k: int| 0 <= k < rows.len() ==> find_row(events, q[k], m, full, #[trigger] rows[k])
        }
}

fn make_snippet(v: &crate::json::Json, m: &Matcher, full: bool) -> (r: String)
    ensures
        r@ == snippet(v@, *m, full),
{
    let text = compact_text(v);
    if full {
        return text;
    }
    find_around(m, text.as_str())
}

/// The events of the scope whose arguments match, by start.
pub fn list_finds(events: &[TraceEvent], m: &Matcher, scope: &Scope, full: bool) -> (rows: Vec<FindRow>)
    ensures
        finds_of(events@, *m, *scope, full, rows@),
        forall|k: int| 0 <= k < rows@.len() ==> (#[trigger] rows@[k]).at < events@.len(),
{
    let p = select_finds(events, m, scope);
    let q = sort_by_ts(events, &p);
    proof {
        assert forall|k: int| 0 <= k < q@.len() implies events@[(#[trigger] q@[k]) as int]@.said()
            is Some by {
            let o = choose|o: Seq<usize>| #[trigger]
                orders(crate::inspect::events::ts_keys(events@, p@), false, o)
                    && crate::sort::picks(p@, o, q@);
            assert(q@[k] == p@[o[k] as int]);
        }
    }
    let mut rows: Vec<FindRow> = Vec::new();
    let mut k: usize = 0;
    while k < q.len()
        invariant
            k <= q@.len(),
            positions_in(q@, events@.len()),
            forall|j: int|
                0 <= j < q@.len() ==> events@[(#[trigger] q@[j]) as int]@.said() is Some,
            rows@.len() == k,
            forall|j: int|
                0 <= j < k ==> find_row(events@, q@[j], *m, full, #[trigger] rows@[j]) && rows@[j].at
                    < events@.len(),
        decreases q@.len() - k,
    {
        let at = q[k];
        assert(q@[k as int] < events@.len());
        assert(events@[q@[k as int] as int]@.said() is Some);
        let text = match events[at].args_value() {
            Some(v) => make_snippet(v, m, full),
            None => String::new(),
        };
        rows.push(FindRow { at, snippet: text });
        k = k + 1;
    }
    rows
}

/// A text for a cell of a table: with a backslash before each bar.
pub open spec fn escaped_bars(s: Seq<char>) -> Seq<char>
    decreases s.len(),
{
    if s.len() == 0 {
        Seq::empty()
    } else if s.last() == '|' {
        escaped_bars(s.drop_last()).push('\\').push('|')
    } else {
        escaped_bars(s.drop_last()).push(s.last())
    }
}

fn escape_bars(s: &str) -> (r: String)
    ensures
        r@ == escaped_bars(s@),
{
    let c = chars_of(s);
    let mut out = String::new();
    let mut i: usize = 0;
    assert(c@.take(0) =~= Seq::<char>::empty());
    assert(out@ =~= Seq::<char>::empty());
    while i < c.len()
        invariant
            i <= c@.len(),
            out@ == escaped_bars(c@.take(i as int)),
        decreases c@.len() - i,
    {
        assert(c@.take(i + 1).drop_last() =~= c@.take(i as int));
        if c[i] == '|' {
            out.push('\\');
        }
        out.push(c[i]);
        i = i + 1;
    }
    assert(c@.take(c@.len() as int) =~= c@);
    out
}

/// The node's name or address matches.
pub open spec fn node_matches(m: Matcher, n: ProfileNode) -> bool {
    matches_text(m, n.name@) || matches_text(m, n.url@)
}

/// The places of the nodes that match, in the order of the table.
pub open spec fn matching_nodes(m: Matcher, list: Seq<ProfileNode>) -> Seq<usize>
    decreases list.len(),
{
    if list.len() == 0 {
        Seq::empty()
    } else {
        let before = matching_nodes(m, list.drop_last());
        if node_matches(m, list.last()) {
            before.push((list.len() - 1) as usize)
        } else {
            before
        }
    }
}

pub open spec fn node_keys(nodes: ProfileNodes, times: ProfileSelfTimes, p: Seq<usize>) -> Seq<i128> {
    p.map_values(|i: usize| times.time(nodes.listed()[i as int].id) as i128)
}

/// A node whose name or address matches.
pub struct FoundNode {
    pub function: String,
    pub url: String,
    pub time: i128,
}

pub open spec fn found_node(nodes: ProfileNodes, times: ProfileSelfTimes, i: usize, r: FoundNode) -> bool {
    let n = nodes.listed()[i as int];
    &&& r.function@ == shown_name(n.name@)
    &&& r.url@ == n.url@
    &&& r.time == times.time(n.id)
}

/// The nodes of a profile that match, the most self-time first.
pub open spec fn found_nodes(
    nodes: ProfileNodes,
    times: ProfileSelfTimes,
    m: Matcher,
    rows: Seq<FoundNode>,
) -> bool {
    let p = matching_nodes(m, nodes.listed());
    exists|o: Seq<usize>|
        {
            &&& #[trigger] orders(node_keys(nodes, times, p), true, o)
            &&& rows.len() == o.len()
            &&& forall|k: int|
                0 <= k < rows.len() ==> found_node(nodes, times, p[o[k] as int], #[trigger] rows[k])
        }
}

/// The nodes of a profile that match, the most self-time first.
pub fn list_nodes(nodes: &ProfileNodes, times: &ProfileSelfTimes, m: &Matcher) -> (rows: Vec<FoundNode>)
    requires
        nodes.wf(),
        times.wf(),
    ensures
        found_nodes(*nodes, *times, *m, rows@),
{
    let n = nodes.len();
    let ghost list = nodes.listed();
    let mut p: Vec<usize> = Vec::new();
    let mut keys: Vec<i128> = Vec::new();
    let mut i: usize = 0;
    assert(list.take(0) =~= Seq::<ProfileNode>::empty());
    while i < n
        invariant
            n == list.len(),
            list == nodes.listed(),
            i <= n,
            times.wf(),
            p@ == matching_nodes(*m, list.take(i as int)),
            positions_in(p@, i as nat),
            keys@.len() == p@.len(),
            forall|k: int|
                0 <= k < p@.len() ==> #[trigger] keys@[k] == times.time(list[p@[k] as int].id),
        decreases n - i,
    {
        let node = nodes.at(i);
        assert(list.take(i + 1).drop_last() =~= list.take(i as int));
        if m.matches(node.name.as_str()) || m.matches(node.url.as_str()) {
            p.push(i);
            keys.push(times.get(node.id));
        }
        i = i + 1;
    }
    proof {
        assert(list.take(n as int) =~= list);
        assert(keys@ =~= node_keys(*nodes, *times, p@));
    }
    let o = order(&keys, true);
    let mut rows: Vec<FoundNode> = Vec::new();
    let mut k: usize = 0;
    while k < o.len()
        invariant
            k <= o@.len(),
            times.wf(),
            list == nodes.listed(),
            orders(keys@, true, o@),
            keys@.len() == p@.len(),
            positions_in(p@, list.len()),
            rows@.len() == k,
            forall|j: int|
                0 <= j < k ==> found_node(*nodes, *times, p@[o@[j] as int], #[trigger] rows@[j]),
        decreases o@.len() - k,
    {
        let slot = o[k];
        assert(p@[slot as int] < list.len());
        let node = nodes.at(p[slot]);
        let function = if node.name.as_str().is_empty() {
            "(anonymous)".to_owned()
        } else {
            node.name.clone()
        };
        rows.push(FoundNode { function, url: node.url.clone(), time: times.get(node.id) });
        k = k + 1;
    }
    rows
}

/// Row `i` of the events that match.
pub open spec fn find_row_pieces(events: Seq<TraceEvent>, r: FindRow, i: int, min_ts: i64) -> Seq<PieceView> {
    let e = events[r.at as int];
    seq![
        txt("| "@),
        txt(decimal((i + 1) as nat)),
        txt(" | "@),
        ms(e.ts - min_ts),
        txt(" | "@),
        ms(dur_of(e)),
        txt(" | "@),
        txt(e.name@),
        txt(" | "@),
        txt(decimal(e.tid as nat)),
        txt(" | …"@),
        txt(escaped_bars(r.snippet@)),
        txt("… |\n"@),
    ]
}

pub open spec fn find_rows_pieces(events: Seq<TraceEvent>, rows: Seq<FindRow>, min_ts: i64, n: int) -> Seq<PieceView>
    decreases n,
{
    if n <= 0 {
        Seq::empty()
    } else {
        find_rows_pieces(events, rows, min_ts, n - 1) + find_row_pieces(
            events,
            rows[n - 1],
            n - 1,
            min_ts,
        )
    }
}

/// Row `i` of the nodes that match.
pub open spec fn node_row_pieces(r: FoundNode, i: int) -> Seq<PieceView> {
    seq![
        txt("| "@),
        txt(decimal((i + 1) as nat)),
        txt(" | "@),
        txt(r.function@),
        txt(" | "@),
        ms(r.time as int),
        txt("ms | "@),
        txt(after_slash(r.url@)),
        txt(" |\n"@),
    ]
}

pub open spec fn node_rows_pieces(rows: Seq<FoundNode>, n: int) -> Seq<PieceView>
    decreases n,
{
    if n <= 0 {
        Seq::empty()
    } else {
        node_rows_pieces(rows, n - 1) + node_row_pieces(rows[n - 1], n - 1)
    }
}

/// What is told of the events that match.
pub open spec fn find_events_pieces(
    events: Seq<TraceEvent>,
    rows: Seq<FindRow>,
    m: Matcher,
    top: usize,
    min_ts: i64,
) -> Seq<PieceView> {
    seq![
        txt("## Find "@),
        txt(matcher_label(m)),
        txt(" in event args ("@),
        txt(decimal(rows.len())),
        txt(" matches)\n\n"@),
    ] + if rows.len() == 0 {
        seq![txt("No matches.\n\n"@)]
    } else {
        seq![
            txt(
                "| # | t(ms) | dur(ms) | name | tid | match |\n|---|-------|---------|------|-----|-------|\n"@,
            ),
        ] + find_rows_pieces(events, rows, min_ts, shown_rows(top, rows.len())) + more_pieces(
            top,
            rows.len() as usize,
            " matches (use --top to see more)._\n"@,
        ) + seq![txt("\n"@)]
    }
}

/// What is told of the nodes that match.
pub open spec fn find_nodes_pieces(nodes: Seq<FoundNode>, top: usize) -> Seq<PieceView> {
    seq![
        txt("### CPU profile matches ("@),
        txt(decimal(nodes.len())),
        txt(" nodes)\n\n"@),
    ] + if nodes.len() == 0 {
        seq![txt("No matching nodes.\n\n"@)]
    } else {
        seq![txt("| # | function | self | file |\n|---|----------|------|------|\n"@)]
            + node_rows_pieces(nodes, shown_rows(top, nodes.len())) + more_pieces(
            top,
            nodes.len() as usize,
            " nodes (use --top to see more)._\n"@,
        ) + seq![txt("\n"@)]
    }
}

/// The section on what was found.
pub open spec fn find_pieces(
    events: Seq<TraceEvent>,
    rows: Seq<FindRow>,
    nodes: Seq<FoundNode>,
    m: Matcher,
    top: usize,
    min_ts: i64,
) -> Seq<PieceView> {
    find_events_pieces(events, rows, m, top, min_ts) + find_nodes_pieces(nodes, top)
}

#[verifier::rlimit(30)]
fn put_find_row(d: &mut Doc, events: &[TraceEvent], r: &FindRow, k: usize, min_ts: i64)
    requires
        k < usize::MAX,
        r.at < events@.len(),
    ensures
        doc_view(final(d)@) == doc_view(old(d)@) + find_row_pieces(events@, *r, k as int, min_ts),
{
    let ghost before = doc_view(d@);
    let e = &events[r.at];
    put(d, "| ");
    put_u64(d, k as u64 + 1);
    put(d, " | ");
    put_num(d, make_ms(e.ts as i128 - min_ts as i128));
    put(d, " | ");
    put_num(d, make_ms(dur_or_zero(e) as i128));
    put(d, " | ");
    put(d, e.name.as_str());
    put(d, " | ");
    put_u64(d, e.tid);
    put(d, " | …");
    put(d, escape_bars(r.snippet.as_str()).as_str());
    put(d, "… |\n");
    assert(doc_view(d@) =~= before + find_row_pieces(events@, *r, k as int, min_ts));
}

fn put_find_rows(d: &mut Doc, events: &[TraceEvent], rows: &Vec<FindRow>, top: usize, min_ts: i64)
    requires
        forall|k: int| 0 <= k < rows@.len() ==> (#[trigger] rows@[k]).at < events@.len(),
    ensures
        doc_view(final(d)@) == doc_view(old(d)@) + find_rows_pieces(
            events@,
            rows@,
            min_ts,
            shown_rows(top, rows@.len()),
        ),
{
    let n: usize = if top < rows.len() {
        top
    } else {
        rows.len()
    };
    let ghost before = doc_view(d@);
    let mut k: usize = 0;
    assert(before + find_rows_pieces(events@, rows@, min_ts, 0) =~= before);
    while k < n
        invariant
            k <= n <= rows@.len(),
            forall|j: int| 0 <= j < rows@.len() ==> (#[trigger] rows@[j]).at < events@.len(),
            doc_view(d@) == before + find_rows_pieces(events@, rows@, min_ts, k as int),
        decreases n - k,
    {
        let r = &rows[k];
        assert(rows@[k as int].at < events@.len());
        put_find_row(d, events, r, k, min_ts);
        assert(doc_view(d@) =~= before + find_rows_pieces(events@, rows@, min_ts, k + 1));
        k = k + 1;
    }
}

#[verifier::rlimit(30)]
fn put_node_row(d: &mut Doc, r: &FoundNode, k: usize)
    requires
        k < usize::MAX,
    ensures
        doc_view(final(d)@) == doc_view(old(d)@) + node_row_pieces(*r, k as int),
{
    let ghost before = doc_view(d@);
    put(d, "| ");
    put_u64(d, k as u64 + 1);
    put(d, " | ");
    put(d, r.function.as_str());
    put(d, " | ");
    put_num(d, make_ms(r.time));
    put(d, "ms | ");
    put(d, short_url(r.url.as_str()).as_str());
    put(d, " |\n");
    assert(doc_view(d@) =~= before + node_row_pieces(*r, k as int));
}

fn put_node_rows(d: &mut Doc, rows: &Vec<FoundNode>, top: usize)
    ensures
        doc_view(final(d)@) == doc_view(old(d)@) + node_rows_pieces(
            rows@,
            shown_rows(top, rows@.len()),
        ),
{
    let n: usize = if top < rows.len() {
        top
    } else {
        rows.len()
    };
    let ghost before = doc_view(d@);
    let mut k: usize = 0;
    assert(before + node_rows_pieces(rows@, 0) =~= before);
    while k < n
        invariant
            k <= n <= rows@.len(),
            doc_view(d@) == before + node_rows_pieces(rows@, k as int),
        decreases n - k,
    {
        let r = &rows[k];
        put_node_row(d, r, k);
        assert(doc_view(d@) =~= before + node_rows_pieces(rows@, k + 1));
        k = k + 1;
    }
}

#[verifier::rlimit(30)]
fn put_find_events(
    d: &mut Doc,
    events: &[TraceEvent],
    rows: &Vec<FindRow>,
    m: &Matcher,
    top: usize,
    min_ts: i64,
)
    requires
        forall|k: int| 0 <= k < rows@.len() ==> (#[trigger] rows@[k]).at < events@.len(),
    ensures
        doc_view(final(d)@) == doc_view(old(d)@) + find_events_pieces(
            events@,
            rows@,
            *m,
            top,
            min_ts,
        ),
{
    let ghost before = doc_view(d@);
    put(d, "## Find ");
    put(d, m.label().as_str());
    put(d, " in event args (");
    put_u64(d, rows.len() as u64);
    put(d, " matches)\n\n");
    if rows.len() == 0 {
        put(d, "No matches.\n\n");
    } else {
        put(
            d,
            "| # | t(ms) | dur(ms) | name | tid | match |\n|---|-------|---------|------|-----|-------|\n",
        );
        put_find_rows(d, events, rows, top, min_ts);
        put_more(d, top, rows.len(), " matches (use --top to see more)._\n");
        put(d, "\n");
    }
    assert(doc_view(d@) =~= before + find_events_pieces(events@, rows@, *m, top, min_ts));
}

#[verifier::rlimit(30)]
fn put_find_nodes(d: &mut Doc, nodes: &Vec<FoundNode>, top: usize)
    ensures
        doc_view(final(d)@) == doc_view(old(d)@) + find_nodes_pieces(nodes@, top),
{
    let ghost before = doc_view(d@);
    put(d, "### CPU profile matches (");
    put_u64(d, nodes.len() as u64);
    put(d, " nodes)\n\n");
    if nodes.len() == 0 {
        put(d, "No matching nodes.\n\n");
    } else {
        put(d, "| # | function | self | file |\n|---|----------|------|------|\n");
        put_node_rows(d, nodes, top);
        put_more(d, top, nodes.len(), " nodes (use --top to see more)._\n");
        put(d, "\n");
    }
    assert(doc_view(d@) =~= before + find_nodes_pieces(nodes@, top));
}

/// Write the section on what was found.
pub fn find_doc(
    events: &[TraceEvent],
    rows: &Vec<FindRow>,
    nodes: &Vec<FoundNode>,
    m: &Matcher,
    top: usize,
    min_ts: i64,
) -> (d: Doc)
    requires
        forall|k: int| 0 <= k < rows@.len() ==> (#[trigger] rows@[k]).at < events@.len(),
    ensures
        doc_view(d@) == find_pieces(events@, rows@, nodes@, *m, top, min_ts),
{
    let mut d: Doc = Vec::new();
    put_find_events(&mut d, events, rows, m, top, min_ts);
    put_find_nodes(&mut d, nodes, top);
    assert(doc_view(d@) =~= find_pieces(events@, rows@, nodes@, *m, top, min_ts));
    d
}

/// The nodes of the scope's profile that match.
pub open spec fn nodes_found(events: Seq<TraceEvent>, scope: Scope, m: Matcher, rows: Seq<FoundNode>) -> bool {
    exists|c: CpuProfileCache|
        {
            &&& nodes_of(events, events.len() as int, c.nodes)
            &&& times_of(events, Some(scope), scope.window, events.len() as int, c.self_times)
            &&& #[trigger] found_nodes(c.nodes, c.self_times, m, rows)
        }
}

/// What was found: events by their arguments, and nodes of the profile by
/// their names and addresses.
pub struct Found {
    pub events: Vec<FindRow>,
    pub nodes: Vec<FoundNode>,
}

/// Search the arguments of the scope's events and the names and addresses of
/// the profile, with the section that tells what was found.
pub fn find_section(
    events: &[TraceEvent],
    matcher: &Matcher,
    scope: &Scope,
    full_args: bool,
    top: usize,
    min_ts: i64,
    cache: Option<&CpuProfileCache>,
) -> (r: (Doc, Found))
    requires
        profile_fits(events@),
        cache matches Some(c) ==> cache_of(events@, *c),
    ensures
        finds_of(events@, *matcher, *scope, full_args, r.1.events@),
        nodes_found(events@, *scope, *matcher, r.1.nodes@),
        doc_view(r.0@) == find_pieces(events@, r.1.events@, r.1.nodes@, *matcher, top, min_ts),
{
    let rows = list_finds(events, matcher, scope, full_args);
    let profile = cpu_profile_for(events, scope, cache);
    let c = profile.get();
    let nodes = list_nodes(&c.nodes, &c.self_times, matcher);
    let d = find_doc(events, &rows, &nodes, matcher, top, min_ts);
    let found = Found { events: rows, nodes };
    assert(nodes_found(events@, *scope, *matcher, found.nodes@)) by {
        assert(found_nodes(c.nodes, c.self_times, *matcher, found.nodes@));
    }
    (d, found)
}

} // verus!
