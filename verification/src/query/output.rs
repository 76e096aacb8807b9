//! The documents that answer a query, on one trace or on two.

use vstd::prelude::*;
use crate::doc::{doc_view, put, Doc, PieceView};
use crate::html::put_copy;
use crate::query::sections::{Answer, Section};
use crate::query::windows::{opt_doc_view, WindowState};
use crate::render::{ms, txt};
use crate::text::same;
use crate::windowed::delta::{
    cell,
    delta_cell,
    metric_name,
    metric_rows,
    put_cell,
    put_delta_cell,
    put_span,
    span_pieces,
    DeltaData,
    DeltaRow,
    Unit,
    WindowStats,
    METRICS,
};

verus! {

/// The texts of the first `n` sections.
pub open spec fn sections_text(s: Seq<Section>, n: int) -> Seq<PieceView>
    decreases n,
{
    if n <= 0 {
        Seq::empty()
    } else {
        sections_text(s, n - 1) + doc_view(s[n - 1].doc@)
    }
}

fn put_sections(d: &mut Doc, s: &Vec<Section>)
    ensures
        doc_view(final(d)@) == doc_view(old(d)@) + sections_text(s@, s@.len() as int),
{
    let ghost before = doc_view(d@);
    let mut k: usize = 0;
    assert(before + sections_text(s@, 0) =~= before);
    while k < s.len()
        invariant
            k <= s@.len(),
            doc_view(d@) == before + sections_text(s@, k as int),
        decreases s@.len() - k,
    {
        put_copy(d, &s[k].doc);
        assert(doc_view(d@) =~= before + sections_text(s@, k + 1));
        k = k + 1;
    }
}

/// What is told of the anchor, between two texts; nothing where there is none.
pub open spec fn note_block(before: Seq<PieceView>, note: Option<Seq<PieceView>>, after: Seq<char>) -> Seq<
    PieceView,
> {
    match note {
        Some(n) => before + n + seq![txt(after)],
        None => Seq::empty(),
    }
}

/// The head of an answer: the trace, the anchor and the window.
pub open spec fn answer_head(name: Seq<char>, w: WindowState, min_ts: i64) -> Seq<PieceView> {
    seq![txt("# chperf inspect: "@), txt(name), txt("\n\n"@)] + note_block(
        seq![txt("**"@)],
        opt_doc_view(w.anchor_note),
        "**\n\n"@,
    ) + match w.shoot {
        Some(s) => seq![txt("**Window**: "@)] + span_pieces(s, min_ts) + seq![
            txt("ms from trace start\n\n"@),
        ],
        None => Seq::empty(),
    }
}

/// The answer to a query on one trace.
#[verifier::rlimit(30)]
pub fn inspect_doc(name: &str, w: &WindowState, min_ts: i64, sections: &Vec<Section>) -> (d: Doc)
    ensures
        doc_view(d@) == answer_head(name@, *w, min_ts) + sections_text(
            sections@,
            sections@.len() as int,
        ),
{
    let mut d: Doc = Vec::new();
    put(&mut d, "# chperf inspect: ");
    put(&mut d, name);
    put(&mut d, "\n\n");
    if let Some(note) = &w.anchor_note {
        put(&mut d, "**");
        put_copy(&mut d, note);
        put(&mut d, "**\n\n");
    }
    if let Some(s) = w.shoot {
        put(&mut d, "**Window**: ");
        put_span(&mut d, s, min_ts);
        put(&mut d, "ms from trace start\n\n");
    }
    assert(doc_view(d@) =~= answer_head(name@, *w, min_ts));
    put_sections(&mut d, sections);
    d
}

/// The figures around the anchor, where the sections hold some: those of the
/// last section that does.
pub open spec fn delta_in(s: Seq<Section>, n: int) -> Option<DeltaData>
    decreases n,
{
    if n <= 0 {
        None
    } else {
        match s[n - 1].answer {
            Answer::Delta(x) => Some(x),
            _ => delta_in(s, n - 1),
        }
    }
}

/// The figures around the anchor, where the sections hold some.
pub fn find_delta(s: &Vec<Section>) -> (r: Option<&DeltaData>)
    ensures
        match r {
            Some(x) => delta_in(s@, s@.len() as int) == Some(*x),
            None => delta_in(s@, s@.len() as int) is None,
        },
{
    let mut k: usize = s.len();
    while k > 0
        invariant
            k <= s@.len(),
            delta_in(s@, s@.len() as int) == delta_in(s@, k as int),
        decreases k,
    {
        if let Answer::Delta(x) = &s[k - 1].answer {
            return Some(x);
        }
        k = k - 1;
    }
    None
}

/// A metric in two traces: the figure at the anchor and what it has over the
/// one before, and by how much the second trace differs from the first.
pub struct PairRow {
    pub metric: String,
    pub unit: Unit,
    pub a_shoot: i128,
    pub a_delta: i128,
    pub b_shoot: i128,
    pub b_delta: i128,
    pub diff_shoot: i128,
    pub diff_delta: i128,
}

/// The figures of a row are small enough for the differences.
pub open spec fn row_small(r: DeltaRow) -> bool {
    &&& -PAIR_BOUND <= r.pre <= PAIR_BOUND
    &&& -PAIR_BOUND <= r.shoot <= PAIR_BOUND
}

/// The largest figure whose differences can be told.
pub const PAIR_BOUND: i128 = 0x1fff_ffff_ffff_ffff_ffff_ffff_ffff_ffff;

pub open spec fn rows_small(rows: Seq<DeltaRow>) -> bool {
    forall|k: int| 0 <= k < rows.len() ==> row_small(#[trigger] rows[k])
}

/// Whether the figures are small enough for the differences.
pub fn check_small(rows: &Vec<DeltaRow>) -> (r: bool)
    ensures
        r == rows_small(rows@),
{
    let mut k: usize = 0;
    while k < rows.len()
        invariant
            k <= rows@.len(),
            forall|j: int| 0 <= j < k ==> row_small(#[trigger] rows@[j]),
        decreases rows@.len() - k,
    {
        let x = &rows[k];
        if !(-PAIR_BOUND <= x.pre && x.pre <= PAIR_BOUND && -PAIR_BOUND <= x.shoot && x.shoot
            <= PAIR_BOUND) {
            assert(!row_small(rows@[k as int]));
            return false;
        }
        k = k + 1;
    }
    true
}

/// The first row of a metric, from `i` on.
pub open spec fn row_named(rows: Seq<DeltaRow>, metric: Seq<char>, i: int) -> Option<int>
    decreases rows.len() - i,
{
    if i < 0 || i >= rows.len() {
        None
    } else if rows[i].metric@ == metric {
        Some(i)
    } else {
        row_named(rows, metric, i + 1)
    }
}

fn find_row(rows: &Vec<DeltaRow>, metric: &str) -> (r: Option<usize>)
    ensures
        match r {
            Some(i) => row_named(rows@, metric@, 0) == Some(i as int) && i < rows@.len(),
            None => row_named(rows@, metric@, 0) is None,
        },
{
    let mut i: usize = 0;
    while i < rows.len()
        invariant
            i <= rows@.len(),
            row_named(rows@, metric@, 0) == row_named(rows@, metric@, i as int),
        decreases rows@.len() - i,
    {
        if same(rows[i].metric.as_str(), metric) {
            return Some(i);
        }
        i = i + 1;
    }
    None
}

/// What the row of a metric says.
pub open spec fn pair_of(a: DeltaRow, b: DeltaRow, p: PairRow) -> bool {
    &&& p.metric@ == a.metric@
    &&& p.unit == a.unit
    &&& p.a_shoot == a.shoot
    &&& p.a_delta == a.shoot - a.pre
    &&& p.b_shoot == b.shoot
    &&& p.b_delta == b.shoot - b.pre
    &&& p.diff_shoot == b.shoot - a.shoot
    &&& p.diff_delta == (b.shoot - b.pre) - (a.shoot - a.pre)
}

/// The places of the first `n` metrics of one trace that the other has too,
/// with those of its rows.
pub open spec fn matched_rows(a: Seq<DeltaRow>, b: Seq<DeltaRow>, n: int) -> Seq<(int, int)>
    decreases n,
{
    if n <= 0 {
        Seq::empty()
    } else {
        match row_named(b, a[n - 1].metric@, 0) {
            Some(j) => matched_rows(a, b, n - 1).push((n - 1, j)),
            None => matched_rows(a, b, n - 1),
        }
    }
}

/// One row for each metric that both traces have.
pub open spec fn pairs_of(a: Seq<DeltaRow>, b: Seq<DeltaRow>, p: Seq<PairRow>) -> bool {
    let m = matched_rows(a, b, a.len() as int);
    &&& p.len() == m.len()
    &&& forall|k: int| 0 <= k < p.len() ==> pair_of(a[m[k].0], b[m[k].1], #[trigger] p[k])
}

/// One row for each metric that both traces have.
pub fn pair_rows(da: &DeltaData, db: &DeltaData) -> (p: Vec<PairRow>)
    requires
        rows_small(da.rows@),
        rows_small(db.rows@),
    ensures
        pairs_of(da.rows@, db.rows@, p@),
{
    let mut p: Vec<PairRow> = Vec::new();
    let mut k: usize = 0;
    while k < da.rows.len()
        invariant
            k <= da.rows@.len(),
            rows_small(da.rows@),
            rows_small(db.rows@),
            p@.len() == matched_rows(da.rows@, db.rows@, k as int).len(),
            forall|i: int|
                0 <= i < p@.len() ==> pair_of(
                    da.rows@[matched_rows(da.rows@, db.rows@, k as int)[i].0],
                    db.rows@[matched_rows(da.rows@, db.rows@, k as int)[i].1],
                    #[trigger] p@[i],
                ),
        decreases da.rows@.len() - k,
    {
        let a = &da.rows[k];
        let ghost before = matched_rows(da.rows@, db.rows@, k as int);
        if let Some(j) = find_row(&db.rows, a.metric.as_str()) {
            let b = &db.rows[j];
            proof {
                assert(row_small(da.rows@[k as int]));
                assert(row_small(db.rows@[j as int]));
                assert(matched_rows(da.rows@, db.rows@, k + 1) == before.push((k as int, j as int)));
            }
            let a_delta: i128 = a.shoot - a.pre;
            let b_delta: i128 = b.shoot - b.pre;
            p.push(
                PairRow {
                    metric: a.metric.clone(),
                    unit: a.unit,
                    a_shoot: a.shoot,
                    a_delta,
                    b_shoot: b.shoot,
                    b_delta,
                    diff_shoot: b.shoot - a.shoot,
                    diff_delta: b_delta - a_delta,
                },
            );
        }
        k = k + 1;
    }
    p
}

/// The line of a metric in two traces.
pub open spec fn pair_pieces(p: PairRow) -> Seq<PieceView> {
    seq![
        txt("| "@),
        txt(p.metric@),
        txt(" | "@),
        cell(p.unit, p.a_shoot as int),
        txt(" | "@),
        delta_cell(p.unit, p.a_delta as int),
        txt(" | "@),
        cell(p.unit, p.b_shoot as int),
        txt(" | "@),
        delta_cell(p.unit, p.b_delta as int),
        txt(" | "@),
        delta_cell(p.unit, p.diff_shoot as int),
        txt(" | "@),
        delta_cell(p.unit, p.diff_delta as int),
        txt(" |\n"@),
    ]
}

pub open spec fn pairs_pieces(p: Seq<PairRow>, n: int) -> Seq<PieceView>
    decreases n,
{
    if n <= 0 {
        Seq::empty()
    } else {
        pairs_pieces(p, n - 1) + pair_pieces(p[n - 1])
    }
}

#[verifier::rlimit(30)]
fn put_pair(d: &mut Doc, r: &PairRow)
    ensures
        doc_view(final(d)@) == doc_view(old(d)@) + pair_pieces(*r),
{
    let ghost before = doc_view(d@);
    put(d, "| ");
    put(d, r.metric.as_str());
    put(d, " | ");
    put_cell(d, r.unit, r.a_shoot);
    put(d, " | ");
    put_delta_cell(d, r.unit, r.a_delta);
    put(d, " | ");
    put_cell(d, r.unit, r.b_shoot);
    put(d, " | ");
    put_delta_cell(d, r.unit, r.b_delta);
    put(d, " | ");
    put_delta_cell(d, r.unit, r.diff_shoot);
    put(d, " | ");
    put_delta_cell(d, r.unit, r.diff_delta);
    put(d, " |\n");
    assert(doc_view(d@) =~= before + pair_pieces(*r));
}

fn put_pairs(d: &mut Doc, p: &Vec<PairRow>)
    ensures
        doc_view(final(d)@) == doc_view(old(d)@) + pairs_pieces(p@, p@.len() as int),
{
    let ghost before = doc_view(d@);
    let mut k: usize = 0;
    assert(before + pairs_pieces(p@, 0) =~= before);
    while k < p.len()
        invariant
            k <= p@.len(),
            doc_view(d@) == before + pairs_pieces(p@, k as int),
        decreases p@.len() - k,
    {
        let r = &p[k];
        put_pair(d, r);
        assert(doc_view(d@) =~= before + pairs_pieces(p@, k + 1));
        k = k + 1;
    }
}

/// The windows at the two anchors, and the metrics of both traces side by side.
pub open spec fn compare_pieces(
    shoot_a: (i64, i64),
    min_a: i64,
    shoot_b: (i64, i64),
    min_b: i64,
    p: Seq<PairRow>,
) -> Seq<PieceView> {
    seq![txt("## Windowed compare: SHOOT & SHOOT−PRE\n\n- **A SHOOT**: "@)] + span_pieces(
        shoot_a,
        min_a,
    ) + seq![txt("ms from trace start\n- **B SHOOT**: "@)] + span_pieces(shoot_b, min_b) + seq![
        txt(
            "ms from trace start\n\n| metric | A SHOOT | A Δ | B SHOOT | B Δ | B−A SHOOT | B−A Δ |\n|--------|---------|-----|---------|-----|-----------|-------|\n"@,
        ),
    ] + pairs_pieces(p, p.len() as int) + seq![txt("\n"@)]
}

/// What is told of the two traces' anchors.
pub open spec fn compare_head(name_a: Seq<char>, wa: WindowState, name_b: Seq<char>, wb: WindowState) -> Seq<
    PieceView,
> {
    seq![
        txt("# chperf inspect compare: "@),
        txt(name_a),
        txt(" vs "@),
        txt(name_b),
        txt("\n\n"@),
    ] + note_block(
        seq![txt("**A ("@), txt(name_a), txt("):** "@)],
        opt_doc_view(wa.anchor_note),
        "\n"@,
    ) + note_block(
        seq![txt("**B ("@), txt(name_b), txt("):** "@)],
        opt_doc_view(wb.anchor_note),
        "\n"@,
    ) + seq![txt("\n"@)]
}

/// One of the two traces that a query is answered on.
pub struct Side<'a> {
    pub name: &'a str,
    pub min_ts: i64,
    pub windows: &'a WindowState,
    pub sections: &'a Vec<Section>,
}

pub open spec fn side_text(label: Seq<char>, s: Side) -> Seq<PieceView> {
    seq![txt(label), txt(s.name@), txt("\n\n"@)] + sections_text(
        s.sections@,
        s.sections@.len() as int,
    )
}

/// The figures of the two sides, where both have some.
pub open spec fn both_deltas(a: Side, b: Side) -> Option<(DeltaData, DeltaData)> {
    match (
        delta_in(a.sections@, a.sections@.len() as int),
        delta_in(b.sections@, b.sections@.len() as int),
    ) {
        (Some(x), Some(y)) => Some((x, y)),
        _ => None,
    }
}

/// The comparison at the end of an answer on two traces; where it was asked for
/// and an anchor is missing, that is told.
pub open spec fn compare_tail(a: Side, b: Side, delta: bool, d: Seq<PieceView>) -> bool {
    match both_deltas(a, b) {
        Some((x, y)) => exists|p: Seq<PairRow>| #[trigger]
            pairs_of(x.rows@, y.rows@, p) && d == compare_pieces(
                x.shoot,
                a.min_ts,
                y.shoot,
                b.min_ts,
                p,
            ),
        None => d == if delta {
            seq![
                txt(
                    "**--delta requires an anchor in both traces: --anchor <substr>, --around <ms> or --worst.**\n\n"@,
                ),
            ]
        } else {
            Seq::empty()
        },
    }
}

/// The answer to a query on two traces.
pub open spec fn compare_answer(a: Side, b: Side, delta: bool, d: Seq<PieceView>) -> bool {
    exists|tail: Seq<PieceView>| #[trigger]
        compare_tail(a, b, delta, tail) && d == compare_head(
            a.name@,
            *a.windows,
            b.name@,
            *b.windows,
        ) + side_text("## Trace A: "@, a) + side_text("## Trace B: "@, b) + tail
}

fn put_side(d: &mut Doc, label: &str, s: &Side)
    ensures
        doc_view(final(d)@) == doc_view(old(d)@) + side_text(label@, *s),
{
    let ghost before = doc_view(d@);
    put(d, label);
    put(d, s.name);
    put(d, "\n\n");
    put_sections(d, s.sections);
    assert(doc_view(d@) =~= before + side_text(label@, *s));
}

fn put_note(d: &mut Doc, label: &str, name: &str, note: &Option<Doc>)
    ensures
        doc_view(final(d)@) == doc_view(old(d)@) + note_block(
            seq![txt(label@), txt(name@), txt("):** "@)],
            opt_doc_view(*note),
            "\n"@,
        ),
{
    let ghost before = doc_view(d@);
    if let Some(n) = note {
        put(d, label);
        put(d, name);
        put(d, "):** ");
        put_copy(d, n);
        put(d, "\n");
    }
    assert(doc_view(d@) =~= before + note_block(
        seq![txt(label@), txt(name@), txt("):** "@)],
        opt_doc_view(*note),
        "\n"@,
    ));
}

/// Write the metrics of two traces side by side.
pub fn compare_doc(da: &DeltaData, min_a: i64, db: &DeltaData, min_b: i64, p: &Vec<PairRow>) -> (d: Doc)
    ensures
        doc_view(d@) == compare_pieces(da.shoot, min_a, db.shoot, min_b, p@),
{
    let mut d: Doc = Vec::new();
    put(&mut d, "## Windowed compare: SHOOT & SHOOT−PRE\n\n- **A SHOOT**: ");
    put_span(&mut d, da.shoot, min_a);
    put(&mut d, "ms from trace start\n- **B SHOOT**: ");
    put_span(&mut d, db.shoot, min_b);
    put(
        &mut d,
        "ms from trace start\n\n| metric | A SHOOT | A Δ | B SHOOT | B Δ | B−A SHOOT | B−A Δ |\n|--------|---------|-----|---------|-----|-----------|-------|\n",
    );
    put_pairs(&mut d, p);
    put(&mut d, "\n");
    assert(doc_view(d@) =~= compare_pieces(da.shoot, min_a, db.shoot, min_b, p@));
    d
}

/// The answer to a query on two traces: the sections of each, and where both
/// are anchored, their metrics side by side.
#[verifier::rlimit(30)]
pub fn inspect_compare_doc(a: &Side, b: &Side, delta: bool) -> (d: Doc)
    requires
        both_deltas(*a, *b) matches Some((x, y)) ==> rows_small(x.rows@) && rows_small(y.rows@),
    ensures
        compare_answer(*a, *b, delta, doc_view(d@)),
{
    let mut d: Doc = Vec::new();
    put(&mut d, "# chperf inspect compare: ");
    put(&mut d, a.name);
    put(&mut d, " vs ");
    put(&mut d, b.name);
    put(&mut d, "\n\n");
    put_note(&mut d, "**A (", a.name, &a.windows.anchor_note);
    put_note(&mut d, "**B (", b.name, &b.windows.anchor_note);
    put(&mut d, "\n");
    assert(doc_view(d@) =~= compare_head(a.name@, *a.windows, b.name@, *b.windows));
    put_side(&mut d, "## Trace A: ", a);
    put_side(&mut d, "## Trace B: ", b);
    let mut tail: Doc = Vec::new();
    match (find_delta(a.sections), find_delta(b.sections)) {
        (Some(x), Some(y)) => {
            let p = pair_rows(x, y);
            tail = compare_doc(x, a.min_ts, y, b.min_ts, &p);
            assert(pairs_of(x.rows@, y.rows@, p@));
        },
        _ => {
            if delta {
                put(
                    &mut tail,
                    "**--delta requires an anchor in both traces: --anchor <substr>, --around <ms> or --worst.**\n\n",
                );
                assert(doc_view(tail@) =~= seq![
                    txt(
                        "**--delta requires an anchor in both traces: --anchor <substr>, --around <ms> or --worst.**\n\n"@,
                    ),
                ]);
            } else {
                assert(doc_view(tail@) =~= Seq::<PieceView>::empty());
            }
        },
    }
    assert(compare_tail(*a, *b, delta, doc_view(tail@)));
    put_copy(&mut d, &tail);
    d
}

/// No metric has two rows.
pub open spec fn distinct_metrics(rows: Seq<DeltaRow>) -> bool {
    forall|i: int, j: int|
        0 <= i < j < rows.len() ==> (#[trigger] rows[i]).metric@ != (#[trigger] rows[j]).metric@
}

proof fn lemma_row_named(rows: Seq<DeltaRow>, k: int, i: int)
    requires
        distinct_metrics(rows),
        0 <= i <= k < rows.len(),
    ensures
        row_named(rows, rows[k].metric@, i) == Some(k),
    decreases k - i,
{
    if i < k {
        assert(rows[i].metric@ != rows[k].metric@);
        lemma_row_named(rows, k, i + 1);
    }
}

proof fn lemma_matched_self(rows: Seq<DeltaRow>, n: int)
    requires
        distinct_metrics(rows),
        0 <= n <= rows.len(),
    ensures
        matched_rows(rows, rows, n).len() == n,
        forall|k: int| 0 <= k < n ==> #[trigger] matched_rows(rows, rows, n)[k] == (k, k),
    decreases n,
{
    if n > 0 {
        lemma_matched_self(rows, n - 1);
        lemma_row_named(rows, n - 1, 0);
    }
}

/// The metrics of a trace have different names.
pub proof fn lemma_metrics_distinct(limit: i64, a: WindowStats, b: WindowStats, c: WindowStats, rows: Seq<DeltaRow>)
    requires
        metric_rows(limit, a, b, c, rows),
    ensures
        distinct_metrics(rows),
{
    assert forall|i: int, j: int| 0 <= i < j < rows.len() implies (#[trigger] rows[i]).metric@ != (
    #[trigger] rows[j]).metric@ by {
        assert(rows[i].metric@ == metric_name(i, limit));
        assert(rows[j].metric@ == metric_name(j, limit));
        lemma_names_differ(i, j, limit);
    }
}

proof fn lemma_names_differ(i: int, j: int, limit: i64)
    requires
        0 <= i < j < METRICS,
    ensures
        metric_name(i, limit) != metric_name(j, limit),
{
    reveal_strlit("frames");
    reveal_strlit("frame p50");
    reveal_strlit("frame p90");
    reveal_strlit("frame p99");
    reveal_strlit("frame max");
    reveal_strlit("dropped frames");
    reveal_strlit("long tasks ≥");
    reveal_strlit("ms");
    reveal_strlit("long task time");
    reveal_strlit("main busy (RunTask)");
    reveal_strlit("JS (FunctionCall)");
    reveal_strlit("GC (Major+Minor)");
    reveal_strlit("GC count");
    reveal_strlit("CPU samples");
    let x = metric_name(i, limit);
    let y = metric_name(j, limit);
    if x == y {
        assert(x.len() == y.len());
        assert(x[0] == y[0]);
        assert(x[3] == y[3]);
        assert(x[6] == y[6]);
        assert(x[7] == y[7]);
        assert(x[8] == y[8]);
        assert(x[9] == y[9]);
    }
}

/// A trace compared with itself shows no difference in any metric.
pub proof fn lemma_self_pairs(rows: Seq<DeltaRow>, p: Seq<PairRow>, k: int)
    requires
        distinct_metrics(rows),
        pairs_of(rows, rows, p),
        0 <= k < p.len(),
    ensures
        p.len() == rows.len(),
        p[k].diff_shoot == 0,
        p[k].diff_delta == 0,
{
    lemma_matched_self(rows, rows.len() as int);
    assert(matched_rows(rows, rows, rows.len() as int)[k] == (k, k));
    assert(pair_of(rows[k], rows[k], p[k]));
}

} // verus!
