//! The sections of the report that are drawn from the answers on memory, input
//! and asynchronous tasks, given as JSON.

use vstd::prelude::*;
use vstd::string::StringExecFns;
use crate::analysis::compare::{make_whole, whole};
use crate::chart::{chart_html, line_chart, Point};
use crate::doc::{
    doc_view,
    make_ms,
    make_ratio,
    ms_num,
    put,
    put_num,
    ratio_num,
    signed,
    Doc,
    PieceView,
};
use crate::html::{
    cells_view,
    dur,
    dur_pieces,
    esc,
    escaped,
    figure,
    figure_pieces,
    metric,
    metric_html,
    nothing,
    plain,
    put_copy,
    rows_view,
    section,
    section_html,
    table,
    table_html,
};
use crate::json::{
    digits_number,
    get_opt,
    items_opt,
    json_opt,
    json_views,
    member_opt,
    number_of_digits,
    str_opt,
    ticks_opt,
    Json,
    JsonView,
};
use crate::render::txt;
use crate::text::{chars_of, string_of, u64_text};

verus! {

/// The answers that the report draws from, where there are any: on memory in
/// both traces, on input and on asynchronous tasks in the first.
pub struct Details<'a> {
    pub memory: Option<&'a Json>,
    pub input: Option<&'a Json>,
    pub tasks: Option<&'a Json>,
    pub memory_b: Option<&'a Json>,
}

/// A thousand times the number that a member holds; zero where it holds none.
pub open spec fn num_in(j: Option<JsonView>, key: Seq<char>) -> i64 {
    match ticks_opt(member_opt(j, key)) {
        Some(v) => v,
        None => 0,
    }
}

fn get_num(j: Option<&Json>, key: &str) -> (r: i64)
    ensures
        r == num_in(json_opt(j), key@),
{
    match get_opt(j, key) {
        Some(v) => match v.as_ticks() {
            Some(t) => t,
            None => 0,
        },
        None => 0,
    }
}

/// The whole number that a text writes, where it fits.
pub open spec fn integer_text(t: Seq<char>) -> int {
    if t.len() > 0 && t[0] == '-' {
        match digits_number(t.subrange(1, t.len() as int)) {
            Some(v) => if v <= 0x8000_0000_0000_0000 {
                -(v as int)
            } else {
                0
            },
            None => 0,
        }
    } else {
        match digits_number(t) {
            Some(v) => if v <= i64::MAX {
                v as int
            } else {
                0
            },
            None => 0,
        }
    }
}

/// The whole number that a member holds; zero where it holds none.
pub open spec fn int_in(j: Option<JsonView>, key: Seq<char>) -> int {
    match member_opt(j, key) {
        Some(JsonView::Number(t)) => integer_text(t),
        _ => 0,
    }
}

/// A whole number as text.
fn integer(t: &str) -> (r: String)
    ensures
        r@ == signed(integer_text(t@)),
{
    let c = chars_of(t);
    if c.len() > 0 && c[0] == '-' {
        let digits = string_of(&c, 1, c.len());
        match number_of_digits(digits.as_str()) {
            Some(v) => if 0 < v && v <= 0x8000_0000_0000_0000 {
                let mut s = String::new();
                s.append("-");
                s.append(u64_text(v).as_str());
                assert(s@ =~= signed(integer_text(t@)));
                s
            } else {
                u64_text(0)
            },
            None => u64_text(0),
        }
    } else {
        match number_of_digits(t) {
            Some(v) => if v <= i64::MAX as u64 {
                u64_text(v)
            } else {
                u64_text(0)
            },
            None => u64_text(0),
        }
    }
}

fn get_int(j: Option<&Json>, key: &str) -> (r: String)
    ensures
        r@ == signed(int_in(json_opt(j), key@)),
{
    match get_opt(j, key) {
        Some(Json::Number(t)) => integer(t.as_str()),
        _ => u64_text(0),
    }
}

/// The text that a member holds; none where it holds something else.
pub open spec fn str_in(j: Option<JsonView>, key: Seq<char>) -> Seq<char> {
    match str_opt(member_opt(j, key)) {
        Some(s) => s,
        None => Seq::empty(),
    }
}

fn get_str<'a>(j: Option<&'a Json>, key: &str) -> (r: &'a str)
    ensures
        r@ == str_in(json_opt(j), key@),
{
    let found: Option<&'a str> = match get_opt(j, key) {
        Some(v) => v.as_str(),
        None => None,
    };
    match found {
        Some(s) => s,
        None => {
            proof {
                reveal_strlit("");
                assert(""@ =~= Seq::<char>::empty());
            }
            ""
        },
    }
}

/// The items of an array that a member holds.
pub open spec fn list_in(j: Option<JsonView>, key: Seq<char>) -> Seq<JsonView> {
    match items_opt(member_opt(j, key)) {
        Some(a) => a,
        None => Seq::empty(),
    }
}

fn get_list<'a>(j: Option<&'a Json>, key: &str) -> (r: Option<&'a Vec<Json>>)
    ensures
        match r {
            Some(a) => json_views(a@) == list_in(json_opt(j), key@),
            None => list_in(json_opt(j), key@).len() == 0,
        },
{
    match get_opt(j, key) {
        Some(v) => v.as_array(),
        None => None,
    }
}

/// A point of a chart for each sample: its time, and a thousand times the number
/// that the given member holds.
pub open spec fn points_of(samples: Seq<JsonView>, key: Seq<char>) -> Seq<Point> {
    Seq::new(
        samples.len(),
        |i: int| (num_in(Some(samples[i]), "t_us"@), num_in(Some(samples[i]), key)),
    )
}

fn find_points(answer: Option<&Json>, key: &str) -> (r: Vec<Point>)
    ensures
        r@ == points_of(list_in(json_opt(answer), "samples"@), key@),
{
    let mut r: Vec<Point> = Vec::new();
    let ghost all = list_in(json_opt(answer), "samples"@);
    if let Some(samples) = get_list(answer, "samples") {
        let mut i: usize = 0;
        while i < samples.len()
            invariant
                i <= samples@.len(),
                json_views(samples@) == all,
                r@.len() == i,
                forall|k: int| 0 <= k < i ==> #[trigger] r@[k] == points_of(all, key@)[k],
            decreases samples@.len() - i,
        {
            let x = Some(&samples[i]);
            r.push((get_num(x, "t_us"), get_num(x, key)));
            i = i + 1;
        }
    }
    assert(r@ =~= points_of(all, key@));
    r
}

/// A number that is given in thousandths, without decimals.
pub open spec fn rounded(v: i64) -> PieceView {
    PieceView::Number(ratio_num(v as int, 1000, 1, 0, false))
}

fn put_rounded(d: &mut Doc, v: i64)
    ensures
        doc_view(final(d)@) == doc_view(old(d)@).push(rounded(v)),
{
    put_num(d, make_ratio(v as i128, 1000, 1, 0, false));
}

/// A number of megabytes that is given in thousandths.
pub open spec fn megabytes(v: i64, plus: bool) -> Seq<PieceView> {
    figure_pieces(v as int, 1000, 1, 1, plus, " MB"@)
}

fn make_megabytes(v: i64, plus: bool) -> (d: Doc)
    ensures
        doc_view(d@) == megabytes(v, plus),
{
    figure(v as i128, 1000, 1, 1, plus, " MB")
}

/// The figures on memory.
pub open spec fn memory_cards(s: Option<JsonView>) -> Seq<PieceView> {
    metric_html(
        "JS heap (start → end)"@,
        megabytes(num_in(s, "first_heap_mb"@), false),
        Seq::empty(),
    ) + metric_html(
        "Heap growth"@,
        megabytes(num_in(s, "growth_mb"@), true),
        seq![txt("peak "@)] + megabytes(num_in(s, "peak_heap_mb"@), false),
    ) + metric_html(
        "DOM nodes (peak)"@,
        seq![rounded(num_in(s, "peak_nodes"@))],
        Seq::empty(),
    ) + metric_html(
        "Listeners / documents"@,
        seq![
            rounded(num_in(s, "peak_listeners"@)),
            txt(" / "@),
            rounded(num_in(s, "peak_documents"@)),
        ],
        Seq::empty(),
    )
}

#[verifier::rlimit(30)]
fn put_memory_cards(d: &mut Doc, s: Option<&Json>)
    ensures
        doc_view(final(d)@) == doc_view(old(d)@) + memory_cards(json_opt(s)),
{
    let ghost before = doc_view(d@);
    metric(
        d,
        "JS heap (start → end)",
        &make_megabytes(get_num(s, "first_heap_mb"), false),
        &nothing(),
    );
    let mut peak = plain("peak ");
    put_copy(&mut peak, &make_megabytes(get_num(s, "peak_heap_mb"), false));
    metric(d, "Heap growth", &make_megabytes(get_num(s, "growth_mb"), true), &peak);
    let mut nodes = nothing();
    put_rounded(&mut nodes, get_num(s, "peak_nodes"));
    assert(doc_view(nodes@) =~= seq![rounded(num_in(json_opt(s), "peak_nodes"@))]);
    metric(d, "DOM nodes (peak)", &nodes, &nothing());
    let mut others = nothing();
    put_rounded(&mut others, get_num(s, "peak_listeners"));
    put(&mut others, " / ");
    put_rounded(&mut others, get_num(s, "peak_documents"));
    assert(doc_view(others@) =~= seq![
        rounded(num_in(json_opt(s), "peak_listeners"@)),
        txt(" / "@),
        rounded(num_in(json_opt(s), "peak_documents"@)),
    ]);
    metric(d, "Listeners / documents", &others, &nothing());
    assert(doc_view(d@) =~= before + memory_cards(json_opt(s)));
}

/// A chart of what the samples tell.
pub open spec fn samples_html(
    answer: Option<JsonView>,
    key: Seq<char>,
    title: Seq<char>,
    color: Seq<char>,
) -> Seq<PieceView> {
    chart_html(title, points_of(list_in(answer, "samples"@), key), 1000, Seq::empty(), color)
}

fn put_samples(d: &mut Doc, answer: Option<&Json>, key: &str, title: &str, color: &str)
    ensures
        doc_view(final(d)@) == doc_view(old(d)@) + samples_html(
            json_opt(answer),
            key@,
            title@,
            color@,
        ),
{
    proof {
        reveal_strlit("");
        assert(""@ =~= Seq::<char>::empty());
    }
    put_copy(d, &line_chart(title, &find_points(answer, key), 1000, "", color));
}

/// The section on memory; none where no sample was taken.
pub open spec fn memory_html(answer: Option<JsonView>) -> Seq<PieceView> {
    let s = member_opt(answer, "summary"@);
    if num_in(s, "samples"@) > 0 {
        section_html("Memory timeline"@) + seq![txt("<div class=\"metrics\">"@)] + memory_cards(s)
            + seq![txt("</div>"@)] + samples_html(
            answer,
            "heap_mb"@,
            "JS heap (MB)"@,
            "#3b82f6"@,
        ) + samples_html(answer, "nodes"@, "DOM nodes"@, "#10b981"@) + seq![txt("</section>"@)]
    } else {
        Seq::empty()
    }
}

/// Append the section on memory.
#[verifier::rlimit(30)]
pub fn put_memory(d: &mut Doc, answer: Option<&Json>)
    ensures
        doc_view(final(d)@) == doc_view(old(d)@) + memory_html(json_opt(answer)),
{
    let ghost before = doc_view(d@);
    let s = get_opt(answer, "summary");
    if get_num(s, "samples") > 0 {
        section(d, "Memory timeline");
        put(d, "<div class=\"metrics\">");
        put_memory_cards(d, s);
        put(d, "</div>");
        put_samples(d, answer, "heap_mb", "JS heap (MB)", "#3b82f6");
        put_samples(d, answer, "nodes", "DOM nodes", "#10b981");
        put(d, "</section>");
    }
    assert(doc_view(d@) =~= before + memory_html(json_opt(answer)));
}

/// The figures on memory of two traces.
pub open spec fn memory_pair_cards(a: Option<JsonView>, b: Option<JsonView>) -> Seq<PieceView> {
    metric_html("Heap growth A"@, megabytes(num_in(a, "growth_mb"@), true), Seq::empty())
        + metric_html("Heap growth B"@, megabytes(num_in(b, "growth_mb"@), true), Seq::empty())
        + metric_html("Peak heap A"@, megabytes(num_in(a, "peak_heap_mb"@), false), Seq::empty())
        + metric_html("Peak heap B"@, megabytes(num_in(b, "peak_heap_mb"@), false), Seq::empty())
}

#[verifier::rlimit(30)]
fn put_memory_pair_cards(d: &mut Doc, a: Option<&Json>, b: Option<&Json>)
    ensures
        doc_view(final(d)@) == doc_view(old(d)@) + memory_pair_cards(json_opt(a), json_opt(b)),
{
    let ghost before = doc_view(d@);
    let none = nothing();
    metric(d, "Heap growth A", &make_megabytes(get_num(a, "growth_mb"), true), &none);
    metric(d, "Heap growth B", &make_megabytes(get_num(b, "growth_mb"), true), &none);
    metric(d, "Peak heap A", &make_megabytes(get_num(a, "peak_heap_mb"), false), &none);
    metric(d, "Peak heap B", &make_megabytes(get_num(b, "peak_heap_mb"), false), &none);
    assert(doc_view(d@) =~= before + memory_pair_cards(json_opt(a), json_opt(b)));
}

/// The section that compares the memory of two traces; none where neither has a
/// sample.
pub open spec fn memory_pair_html(a: Option<JsonView>, b: Option<JsonView>) -> Seq<PieceView> {
    let sa = member_opt(a, "summary"@);
    let sb = member_opt(b, "summary"@);
    if num_in(sa, "samples"@) > 0 || num_in(sb, "samples"@) > 0 {
        section_html("Memory comparison"@) + seq![txt("<div class=\"metrics\">"@)]
            + memory_pair_cards(sa, sb) + seq![txt("</div>"@)] + samples_html(
            a,
            "heap_mb"@,
            "JS heap — A (MB)"@,
            "#3b82f6"@,
        ) + samples_html(b, "heap_mb"@, "JS heap — B (MB)"@, "#f59e0b"@) + seq![txt("</section>"@)]
    } else {
        Seq::empty()
    }
}

/// Append the section that compares the memory of two traces.
#[verifier::rlimit(30)]
pub fn put_memory_pair(d: &mut Doc, a: Option<&Json>, b: Option<&Json>)
    ensures
        doc_view(final(d)@) == doc_view(old(d)@) + memory_pair_html(json_opt(a), json_opt(b)),
{
    let ghost before = doc_view(d@);
    let sa = get_opt(a, "summary");
    let sb = get_opt(b, "summary");
    if get_num(sa, "samples") > 0 || get_num(sb, "samples") > 0 {
        section(d, "Memory comparison");
        put(d, "<div class=\"metrics\">");
        put_memory_pair_cards(d, sa, sb);
        put(d, "</div>");
        put_samples(d, a, "heap_mb", "JS heap — A (MB)", "#3b82f6");
        put_samples(d, b, "heap_mb", "JS heap — B (MB)", "#f59e0b");
        put(d, "</section>");
    }
    assert(doc_view(d@) =~= before + memory_pair_html(json_opt(a), json_opt(b)));
}

/// A time that a member holds.
pub open spec fn time_in(j: Option<JsonView>, key: Seq<char>) -> Seq<PieceView> {
    dur_pieces(whole(num_in(j, key) as int))
}

fn get_time(j: Option<&Json>, key: &str) -> (d: Doc)
    ensures
        doc_view(d@) == time_in(json_opt(j), key@),
{
    dur(make_whole(get_num(j, key) as i128))
}

/// The row of what has the given label: how often and how long.
pub open spec fn times_cells(t: Option<JsonView>, label: Seq<char>) -> Seq<Seq<PieceView>> {
    seq![
        seq![txt(escaped(str_in(t, label)))],
        seq![txt(signed(int_in(t, "count"@)))],
        time_in(t, "total_us"@),
        time_in(t, "avg_us"@),
        time_in(t, "p50_us"@),
        time_in(t, "p99_us"@),
        time_in(t, "max_us"@),
    ]
}

fn make_times(t: Option<&Json>, label: &str) -> (row: Vec<Doc>)
    ensures
        cells_view(row@) == times_cells(json_opt(t), label@),
{
    let mut row: Vec<Doc> = Vec::new();
    row.push(plain(esc(get_str(t, label)).as_str()));
    row.push(plain(get_int(t, "count").as_str()));
    row.push(get_time(t, "total_us"));
    row.push(get_time(t, "avg_us"));
    row.push(get_time(t, "p50_us"));
    row.push(get_time(t, "p99_us"));
    row.push(get_time(t, "max_us"));
    assert(cells_view(row@) =~= times_cells(json_opt(t), label@));
    row
}

/// The row of one that took long: when, how long, and its label.
pub open spec fn long_cells(t: Option<JsonView>, label: Seq<char>) -> Seq<Seq<PieceView>> {
    seq![
        seq![PieceView::Number(ms_num(num_in(t, "t_us"@) as int)), txt("ms"@)],
        time_in(t, "dur_us"@),
        seq![txt(escaped(str_in(t, label)))],
    ]
}

fn make_long(t: Option<&Json>, label: &str) -> (row: Vec<Doc>)
    ensures
        cells_view(row@) == long_cells(json_opt(t), label@),
{
    let mut row: Vec<Doc> = Vec::new();
    let mut at = nothing();
    put_num(&mut at, make_ms(get_num(t, "t_us") as i128));
    put(&mut at, "ms");
    assert(doc_view(at@) =~= long_cells(json_opt(t), label@)[0]);
    row.push(at);
    row.push(get_time(t, "dur_us"));
    row.push(plain(esc(get_str(t, label)).as_str()));
    assert(cells_view(row@) =~= long_cells(json_opt(t), label@));
    row
}

/// The rows of all that the list names.
pub open spec fn times_rows(a: Seq<JsonView>, label: Seq<char>) -> Seq<Seq<Seq<PieceView>>> {
    Seq::new(a.len(), |i: int| times_cells(Some(a[i]), label))
}

/// How many of those that took long are shown.
pub const SHOWN_LONG: usize = 20;

/// The rows of the first that took long.
pub open spec fn long_rows(a: Seq<JsonView>, label: Seq<char>) -> Seq<Seq<Seq<PieceView>>> {
    Seq::new(
        if a.len() < SHOWN_LONG {
            a.len()
        } else {
            SHOWN_LONG as nat
        },
        |i: int| long_cells(Some(a[i]), label),
    )
}

fn list_times(a: &Vec<Json>, label: &str) -> (rows: Vec<Vec<Doc>>)
    ensures
        rows_view(rows@) == times_rows(json_views(a@), label@),
{
    let mut rows: Vec<Vec<Doc>> = Vec::new();
    let mut i: usize = 0;
    while i < a.len()
        invariant
            i <= a@.len(),
            rows@.len() == i,
            forall|k: int|
                0 <= k < i ==> cells_view((#[trigger] rows@[k])@) == times_cells(Some(a@[k]@), label@),
        decreases a@.len() - i,
    {
        rows.push(make_times(Some(&a[i]), label));
        i = i + 1;
    }
    assert(rows_view(rows@) =~= times_rows(json_views(a@), label@));
    rows
}

fn list_long(a: &Vec<Json>, label: &str) -> (rows: Vec<Vec<Doc>>)
    ensures
        rows_view(rows@) == long_rows(json_views(a@), label@),
{
    let mut rows: Vec<Vec<Doc>> = Vec::new();
    let mut i: usize = 0;
    while i < a.len() && i < SHOWN_LONG
        invariant
            i <= a@.len(),
            i <= SHOWN_LONG,
            rows@.len() == i,
            forall|k: int|
                0 <= k < i ==> cells_view((#[trigger] rows@[k])@) == long_cells(Some(a@[k]@), label@),
        decreases a@.len() - i,
    {
        rows.push(make_long(Some(&a[i]), label));
        i = i + 1;
    }
    assert(rows_view(rows@) =~= long_rows(json_views(a@), label@));
    rows
}

/// Those that took long; nothing where none is listed.
pub open spec fn long_html(a: Seq<JsonView>, title: Seq<char>, label: &str) -> Seq<PieceView> {
    if a.len() == 0 {
        Seq::empty()
    } else {
        seq![txt("<h3>"@), txt(title), txt("</h3>"@)] + table_html(
            seq!["t", "duration", label],
            long_rows(a, label@),
        )
    }
}

#[verifier::rlimit(30)]
fn put_long(d: &mut Doc, a: &Vec<Json>, title: &str, label: &str)
    ensures
        doc_view(final(d)@) == doc_view(old(d)@) + long_html(json_views(a@), title@, label),
{
    let ghost before = doc_view(d@);
    if a.len() > 0 {
        put(d, "<h3>");
        put(d, title);
        put(d, "</h3>");
        let headers = vec!["t", "duration", label];
        assert(headers@ =~= seq!["t", "duration", label]);
        table(d, &headers, &list_long(a, label));
    }
    assert(doc_view(d@) =~= before + long_html(json_views(a@), title@, label));
}

/// A section on what took time: the totals of each kind, and those that took
/// longest. None where no kind is listed.
pub open spec fn times_html(
    kinds: Seq<JsonView>,
    longest: Seq<JsonView>,
    title: Seq<char>,
    long_title: Seq<char>,
    label: &str,
) -> Seq<PieceView> {
    if kinds.len() == 0 {
        Seq::empty()
    } else {
        section_html(title) + table_html(
            seq![label, "count", "total", "avg", "p50", "p99", "max"],
            times_rows(kinds, label@),
        ) + long_html(longest, long_title, label) + seq![txt("</section>"@)]
    }
}

#[verifier::rlimit(30)]
fn put_times(
    d: &mut Doc,
    kinds: &Vec<Json>,
    longest: Option<&Vec<Json>>,
    title: &str,
    long_title: &str,
    label: &str,
)
    ensures
        doc_view(final(d)@) == doc_view(old(d)@) + times_html(
            json_views(kinds@),
            match longest {
                Some(a) => json_views(a@),
                None => Seq::empty(),
            },
            title@,
            long_title@,
            label,
        ),
{
    let ghost before = doc_view(d@);
    let ghost long = match longest {
        Some(a) => json_views(a@),
        None => Seq::empty(),
    };
    if kinds.len() > 0 {
        section(d, title);
        let headers = vec![label, "count", "total", "avg", "p50", "p99", "max"];
        assert(headers@ =~= seq![label, "count", "total", "avg", "p50", "p99", "max"]);
        table(d, &headers, &list_times(kinds, label));
        if let Some(a) = longest {
            put_long(d, a, long_title, label);
        }
        put(d, "</section>");
    }
    assert(doc_view(d@) =~= before + times_html(json_views(kinds@), long, title@, long_title@, label));
}

/// The section on input.
pub open spec fn input_html(answer: Option<JsonView>) -> Seq<PieceView> {
    times_html(
        list_in(answer, "types"@),
        list_in(answer, "worst"@),
        "Input latency by type"@,
        "Worst inputs"@,
        "type",
    )
}

/// Append the section on input.
pub fn put_input(d: &mut Doc, answer: Option<&Json>)
    ensures
        doc_view(final(d)@) == doc_view(old(d)@) + input_html(json_opt(answer)),
{
    let ghost before = doc_view(d@);
    let longest = get_list(answer, "worst");
    assert(longest is None ==> list_in(json_opt(answer), "worst"@) =~= Seq::<JsonView>::empty());
    if let Some(kinds) = get_list(answer, "types") {
        put_times(d, kinds, longest, "Input latency by type", "Worst inputs", "type");
    }
    assert(doc_view(d@) =~= before + input_html(json_opt(answer)));
}

/// The section on asynchronous tasks.
pub open spec fn tasks_html(answer: Option<JsonView>) -> Seq<PieceView> {
    times_html(
        list_in(answer, "tasks"@),
        list_in(answer, "longest"@),
        "Async tasks (s/f paired)"@,
        "Longest tasks"@,
        "name",
    )
}

/// Append the section on asynchronous tasks.
pub fn put_tasks(d: &mut Doc, answer: Option<&Json>)
    ensures
        doc_view(final(d)@) == doc_view(old(d)@) + tasks_html(json_opt(answer)),
{
    let ghost before = doc_view(d@);
    let longest = get_list(answer, "longest");
    assert(longest is None ==> list_in(json_opt(answer), "longest"@) =~= Seq::<JsonView>::empty());
    if let Some(kinds) = get_list(answer, "tasks") {
        put_times(d, kinds, longest, "Async tasks (s/f paired)", "Longest tasks", "name");
    }
    assert(doc_view(d@) =~= before + tasks_html(json_opt(answer)));
}

} // verus!
