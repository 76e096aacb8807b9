//! What the pages of a report show: texts, times, changes and the columns of
//! their tables.

use vstd::prelude::*;
use crate::analysis::common::Ratio;
use crate::analysis::compare::{ratio_fits, whole};
use crate::analysis::cpu::CpuProfileResult;
use crate::analysis::jank::JankCluster;
use crate::analysis::scroll::{bottleneck_label, costs_of, dominant, FrameAverages, FrameTask};
use crate::analysis::summary::EventTypeStat;
use crate::compact::{compact, hex_digit, items_text, json_char, json_chars, json_quoted, members_text};
use crate::doc::PieceView;
use crate::html::{
    change_html,
    cluster_cells,
    cost_rows,
    cpu_row,
    cpu_share,
    dur_pieces,
    entity,
    escaped,
    event_cells,
    frame_cells,
    quick_rows,
    self_sum,
    worst_task,
};
use crate::json::JsonView;
use crate::laws::compare::{apart, changed_by, lemma_diff};
use crate::render::{more_pieces, shortened, txt};
use crate::report::Analyzed;
use crate::text::decimal;

verus! {

/// A text is escaped part by part.
pub proof fn lemma_escaped_parts(a: Seq<char>, b: Seq<char>)
    ensures
        escaped(a + b) == escaped(a) + escaped(b),
    decreases b.len(),
{
    if b.len() == 0 {
        assert(a + b =~= a);
        assert(escaped(a) + escaped(b) =~= escaped(a));
    } else {
        let t = b.drop_last();
        lemma_escaped_parts(a, t);
        assert((a + b).drop_last() =~= a + t);
        assert((a + b).last() == b.last());
        assert(escaped(a) + (escaped(t) + entity(b.last())) =~= escaped(a) + escaped(t) + entity(b.last()));
    }
}

/// The characters that mean something in HTML are replaced, others stay.
pub proof fn lemma_escaped_char(c: char)
    ensures
        escaped(seq!['<']) == "&lt;"@,
        escaped(seq!['>']) == "&gt;"@,
        escaped(seq!['&']) == "&amp;"@,
        escaped(seq!['"']) == "&quot;"@,
        c != '<' && c != '>' && c != '&' && c != '"' ==> escaped(seq![c]) == seq![c],
{
    lemma_one_char('<');
    lemma_one_char('>');
    lemma_one_char('&');
    lemma_one_char('"');
    lemma_one_char(c);
}

proof fn lemma_one_char(c: char)
    ensures
        escaped(seq![c]) == entity(c),
{
    let none = Seq::<char>::empty();
    assert(seq![c].drop_last() =~= none);
    assert(escaped(none) =~= none);
    assert(none + entity(c) =~= entity(c));
}

/// No escaped text opens or closes a tag or a quoted value.
pub proof fn lemma_escaped_safe(s: Seq<char>)
    ensures
        forall|i: int|
            0 <= i < escaped(s).len() ==> (#[trigger] escaped(s)[i]) != '<' && escaped(s)[i] != '>' && escaped(s)[i]
                != '"',
    decreases s.len(),
{
    if s.len() > 0 {
        let t = s.drop_last();
        lemma_escaped_safe(t);
        reveal_strlit("&lt;");
        reveal_strlit("&gt;");
        reveal_strlit("&amp;");
        reveal_strlit("&quot;");
        let e = entity(s.last());
        assert forall|i: int| 0 <= i < e.len() implies (#[trigger] e[i]) != '<' && e[i] != '>' && e[i] != '"' by {}
        assert forall|i: int| 0 <= i < escaped(s).len() implies (#[trigger] escaped(s)[i]) != '<' && escaped(s)[i]
            != '>' && escaped(s)[i] != '"' by {
            if i < escaped(t).len() {
                assert(escaped(s)[i] == escaped(t)[i]);
            } else {
                assert(escaped(s)[i] == e[i - escaped(t).len()]);
            }
        }
    }
}

/// The character stands for itself inside the quotes of a value.
pub open spec fn stands_for_itself(c: char) -> bool {
    c as int >= 32 && c != '"' && c != '\\'
}

/// Inside the quotes of a value no quote stands without a backslash before it,
/// and what needs none stands for itself.
pub proof fn lemma_quoted_safe(s: Seq<char>)
    ensures
        forall|i: int|
            0 <= i < json_chars(s).len() && (#[trigger] json_chars(s)[i]) == '"' ==> i > 0 && json_chars(s)[i - 1]
                == '\\',
        json_quoted(s) == seq!['"'] + json_chars(s) + seq!['"'],
        (forall|i: int| 0 <= i < s.len() ==> stands_for_itself(#[trigger] s[i])) ==> json_chars(s) == s,
    decreases s.len(),
{
    if s.len() > 0 {
        let t = s.drop_last();
        lemma_quoted_safe(t);
        let e = json_char(s.last());
        let all = json_chars(s);
        assert(all == json_chars(t) + e);
        lemma_quote_marked(s.last());
        assert forall|i: int| 0 <= i < all.len() && (#[trigger] all[i]) == '"' implies i > 0 && all[i - 1] == '\\' by {
            let n = json_chars(t).len() as int;
            if i < n {
                assert(all[i] == json_chars(t)[i]);
                assert(all[i - 1] == json_chars(t)[i - 1]);
            } else {
                assert(all[i] == e[i - n]);
                assert(all[i - 1] == e[i - n - 1]);
            }
        }
        if forall|i: int| 0 <= i < s.len() ==> stands_for_itself(#[trigger] s[i]) {
            assert forall|i: int| 0 <= i < t.len() implies stands_for_itself(#[trigger] t[i]) by {
                assert(t[i] == s[i]);
            }
            assert(stands_for_itself(s[s.len() - 1]));
            assert(t + seq![s.last()] =~= s);
        }
    } else {
        assert(json_chars(s) =~= s);
    }
}

proof fn lemma_quote_marked(c: char)
    ensures
        forall|i: int|
            0 <= i < json_char(c).len() && (#[trigger] json_char(c)[i]) == '"' ==> i > 0 && json_char(c)[i - 1]
                == '\\',
{
    let (h, l) = (hex_digit(c as int / 16), hex_digit(c as int % 16));
    if (c as int) < 32 {
        assert(h != '"' && l != '"');
    }
}

/// A value in short form: the words, the number as it is written, the text in
/// quotes, and lists in brackets with commas between their items.
pub proof fn lemma_compact(v: JsonView, a: Seq<JsonView>, o: Seq<(Seq<char>, JsonView)>)
    ensures
        compact(JsonView::Null) == "null"@,
        compact(JsonView::Bool(true)) == "true"@,
        compact(JsonView::Bool(false)) == "false"@,
        v matches JsonView::Number(t) ==> compact(v) == t,
        v matches JsonView::Str(t) ==> compact(v) == json_quoted(t),
        compact(JsonView::Arr(a)) == "["@ + items_text(a, a.len()) + "]"@,
        compact(JsonView::Obj(o)) == "{"@ + members_text(o, o.len()) + "}"@,
        a.len() == 0 ==> items_text(a, a.len()).len() == 0,
        a.len() == 1 ==> items_text(a, a.len()) == compact(a[0]),
        a.len() > 1 ==> items_text(a, a.len()) == items_text(a, (a.len() - 1) as nat) + ","@ + compact(a.last()),
        o.len() == 0 ==> members_text(o, o.len()).len() == 0,
        o.len() == 1 ==> members_text(o, o.len()) == json_quoted(o[0].0) + ":"@ + compact(o[0].1),
        o.len() > 1 ==> members_text(o, o.len()) == members_text(o, (o.len() - 1) as nat) + ","@ + json_quoted(
            o.last().0,
        ) + ":"@ + compact(o.last().1),
{
}

/// A number that stands for a part of a quotient.
pub open spec fn shows(p: PieceView, r: Ratio, per: u32, decimals: u8) -> bool {
    p matches PieceView::Number(n) && n.num == r.num && n.den == r.den && !n.neg && n.times == 1 && n.per == per
        && n.decimals == decimals
}

/// A time is shown in seconds, milliseconds or microseconds, whichever is the
/// largest that fits into it; less than ten nanoseconds are none.
pub proof fn lemma_unit(r: Ratio)
    requires
        r.num >= 0,
        r.den > 0,
    ensures
        r.num < 10 * r.den ==> dur_pieces(r) == seq![txt("0"@)],
        r.num >= 10 * r.den && r.num < 1_000_000 * r.den ==> dur_pieces(r).len() == 2 && shows(
            dur_pieces(r)[0],
            r,
            1000,
            0,
        ) && dur_pieces(r)[1] == txt("us"@),
        r.num >= 1_000_000 * r.den && r.num < 1_000_000_000 * r.den ==> dur_pieces(r).len() == 2 && shows(
            dur_pieces(r)[0],
            r,
            1_000_000,
            2,
        ) && dur_pieces(r)[1] == txt("ms"@),
        r.num >= 1_000_000_000 * r.den ==> dur_pieces(r).len() == 2 && shows(
            dur_pieces(r)[0],
            r,
            1_000_000_000,
            2,
        ) && dur_pieces(r)[1] == txt("s"@),
{
    let (v, d) = (r.num as int, r.den as int);
    assert(v / 10 < d <==> v < 10 * d) by (nonlinear_arith)
        requires
            v >= 0,
            d > 0,
    ;
    assert(v / 1_000_000 >= d <==> v >= 1_000_000 * d) by (nonlinear_arith)
        requires
            v >= 0,
            d > 0,
    ;
    assert(v / 1_000_000_000 >= d <==> v >= 1_000_000_000 * d) by (nonlinear_arith)
        requires
            v >= 0,
            d > 0,
    ;
}

/// A change: growth by more than a twentieth is bad, shrinking by as much is
/// good, anything else is neither; what was not there before is new.
pub proof fn lemma_change(a: Ratio, b: Ratio)
    requires
        ratio_fits(a),
        ratio_fits(b),
    ensures
        a.num <= 0 && b.num <= 0 ==> change_html(a, b) == seq![txt("<span class=\"muted\">—</span>"@)],
        a.num <= 0 && b.num > 0 ==> change_html(a, b) == seq![txt("<span class=\"pos\">new</span>"@)],
        a.num > 0 ==> {
            let p = change_html(a, b);
            &&& p.len() == 3
            &&& p[2] == txt("%</span>"@)
            &&& p[0] == txt(
                if changed_by(a, b, 5) && b.num * a.den > a.num * b.den {
                    "<span class=\"neg\">"@
                } else if changed_by(a, b, 5) {
                    "<span class=\"pos\">"@
                } else {
                    "<span class=\"muted\">"@
                },
            )
            &&& p[1] matches PieceView::Number(n) && n.den > 0 && n.times == 100 && n.per == 1 && n.decimals == 0
                && n.num * (a.num * b.den) == apart(a.num * b.den, b.num * a.den) * n.den && n.neg == (b.num * a.den
                < a.num * b.den)
        },
{
    lemma_diff(a, b, 5);
    if a.num > 0 && changed_by(a, b, 5) {
        assert(apart(a.num * b.den, b.num * a.den) > 0) by {
            let (x, y) = (a.num as int, b.den as int);
            assert(x * y > 0) by (nonlinear_arith)
                requires
                    x > 0,
                    y > 0,
            ;
        }
    }
}

/// The columns of the table of events: event, count, total, average.
pub proof fn lemma_event_columns(s: EventTypeStat)
    ensures
        event_cells(s).len() == 5,
        event_cells(s)[0] == seq![txt(escaped(s.name@))],
        event_cells(s)[1] == seq![txt(decimal(s.count as nat))],
        event_cells(s)[2] == dur_pieces(whole(s.total_time as int)),
        event_cells(s)[3] == dur_pieces(s.avg_time),
{
}

/// The columns of the table of jank: busy, longest task and dropped frames.
pub proof fn lemma_cluster_columns(c: JankCluster)
    ensures
        cluster_cells(c).len() == 6,
        cluster_cells(c)[0] == dur_pieces(c.start),
        cluster_cells(c)[2] == dur_pieces(whole(c.busy as int)),
        cluster_cells(c)[3] == dur_pieces(whole(c.max_run as int)),
        cluster_cells(c)[4] == seq![txt(decimal(c.dropped_frames as nat))],
{
}

/// The columns of the table of frames.
pub proof fn lemma_frame_columns(t: FrameTask)
    ensures
        frame_cells(t).len() == 6,
        frame_cells(t)[0] == dur_pieces(whole(t.dur as int)),
        frame_cells(t)[1] == seq![txt(bottleneck_label(costs_of(t)))],
        frame_cells(t)[2] == dur_pieces(whole(t.js as int)),
        frame_cells(t)[3] == dur_pieces(whole(t.ult as int)),
        frame_cells(t)[4] == dur_pieces(whole(t.layout as int)),
        frame_cells(t)[5] == dur_pieces(whole(t.paint as int)),
{
}

/// The bottleneck of a frame is a work that no other takes longer than.
pub proof fn lemma_bottleneck(t: FrameTask)
    ensures
        bottleneck_label(costs_of(t)) == "JS"@ ==> t.js >= t.ult && t.js >= t.layout && t.js >= t.paint && t.js
            >= t.composite && t.js >= t.hit_test,
        t.js > t.ult && t.js > t.layout && t.js > t.paint && t.js > t.composite && t.js > t.hit_test
            ==> bottleneck_label(costs_of(t)) == "JS"@,
        t.ult > t.js && t.ult > t.layout && t.ult > t.paint && t.ult > t.composite && t.ult > t.hit_test
            ==> bottleneck_label(costs_of(t)) == "Style"@,
        t.layout > t.js && t.layout > t.ult && t.layout > t.paint && t.layout > t.composite && t.layout > t.hit_test
            ==> bottleneck_label(costs_of(t)) == "Layout"@,
        t.paint > t.js && t.paint > t.ult && t.paint > t.layout && t.paint > t.composite && t.paint > t.hit_test
            ==> bottleneck_label(costs_of(t)) == "Paint"@,
        t.composite > t.js && t.composite > t.ult && t.composite > t.layout && t.composite > t.paint && t.composite
            > t.hit_test ==> bottleneck_label(costs_of(t)) == "Composite"@,
        t.hit_test > t.js && t.hit_test > t.ult && t.hit_test > t.layout && t.hit_test > t.paint && t.hit_test
            > t.composite ==> bottleneck_label(costs_of(t)) == "HitTest"@,
{
    let costs = costs_of(t);
    assert(costs.len() == 6);
    assert(costs[0] == t.js && costs[1] == t.ult && costs[2] == t.layout && costs[3] == t.paint && costs[4]
        == t.composite && costs[5] == t.hit_test);
    let b = lemma_some_dominant(costs, 6);
    assert(dominant(costs, b));
    let k = choose|k: int| dominant(costs, k);
    assert(dominant(costs, k));
    reveal_strlit("JS");
    reveal_strlit("Style");
    reveal_strlit("Layout");
    reveal_strlit("Paint");
    reveal_strlit("Composite");
    reveal_strlit("HitTest");
    assert("JS"@.len() == 2 && "Style"@.len() == 5 && "Layout"@.len() == 6 && "Paint"@.len() == 5 && "Composite"@.len()
        == 9 && "HitTest"@.len() == 7);
}

proof fn lemma_some_dominant(costs: Seq<i128>, n: int) -> (b: int)
    requires
        1 <= n <= costs.len(),
    ensures
        0 <= b < n,
        forall|j: int| 0 <= j < n ==> #[trigger] costs[j] <= costs[b],
        forall|j: int| b < j < n ==> #[trigger] costs[j] < costs[b],
    decreases n,
{
    if n == 1 {
        0
    } else {
        let b = lemma_some_dominant(costs, n - 1);
        if costs[n - 1] >= costs[b] {
            n - 1
        } else {
            b
        }
    }
}

/// The columns of the table of functions: the share and the time of the
/// function, and the share of all up to it.
pub proof fn lemma_function_columns(c: CpuProfileResult, i: int)
    requires
        0 <= i < c.functions@.len(),
    ensures
        cpu_row(c, i).len() == 6,
        cpu_row(c, i)[0] == cpu_share(c.functions@[i].self_time as int, c),
        cpu_row(c, i)[3] == dur_pieces(whole(c.functions@[i].self_time as int)),
        cpu_row(c, i)[4] == cpu_share(self_sum(c, i + 1), c),
        self_sum(c, i + 1) == self_sum(c, i) + c.functions@[i].self_time,
        self_sum(c, 0) == 0,
        c.functions@[i].function_name@.len() > 0 ==> cpu_row(c, i)[2] == seq![
            txt(escaped(c.functions@[i].function_name@)),
        ],
        c.functions@[i].function_name@.len() == 0 ==> cpu_row(c, i)[2] == seq![txt(escaped("(anonymous)"@))],
{
}

/// What is compared: the first trace's average and then the second's, for each
/// kind of work, with the change from the first to the second.
pub proof fn lemma_cost_rows(a: FrameAverages, b: FrameAverages)
    ensures
        cost_rows(a, b).len() == 7,
        cost_rows(a, b)[0] == seq![seq![txt("Duration"@)], dur_pieces(a.dur), dur_pieces(b.dur), change_html(a.dur, b.dur)],
        cost_rows(a, b)[1] == seq![seq![txt("JS"@)], dur_pieces(a.js), dur_pieces(b.js), change_html(a.js, b.js)],
        cost_rows(a, b)[2] == seq![seq![txt("Style"@)], dur_pieces(a.ult), dur_pieces(b.ult), change_html(a.ult, b.ult)],
        cost_rows(a, b)[3] == seq![
            seq![txt("Layout"@)],
            dur_pieces(a.layout),
            dur_pieces(b.layout),
            change_html(a.layout, b.layout),
        ],
        cost_rows(a, b)[4] == seq![
            seq![txt("Paint"@)],
            dur_pieces(a.paint),
            dur_pieces(b.paint),
            change_html(a.paint, b.paint),
        ],
        cost_rows(a, b)[5] == seq![
            seq![txt("Composite"@)],
            dur_pieces(a.composite),
            dur_pieces(b.composite),
            change_html(a.composite, b.composite),
        ],
        cost_rows(a, b)[6] == seq![
            seq![txt("HitTest"@)],
            dur_pieces(a.hit_test),
            dur_pieces(b.hit_test),
            change_html(a.hit_test, b.hit_test),
        ],
{
}

/// The figures of two traces at a glance: the first trace's and then the
/// second's.
pub proof fn lemma_quick_rows(a: Analyzed, b: Analyzed)
    ensures
        quick_rows(a, b).len() == if a.style_recalc.total_count > 0 || b.style_recalc.total_count > 0 {
            5nat
        } else {
            4nat
        },
        quick_rows(a, b)[0][1] == seq![txt(decimal(a.summary.long_task_count as nat))],
        quick_rows(a, b)[0][2] == seq![txt(decimal(b.summary.long_task_count as nat))],
        quick_rows(a, b)[0][3] == change_html(
            whole(a.summary.long_task_count as int),
            whole(b.summary.long_task_count as int),
        ),
        quick_rows(a, b)[1][1] == dur_pieces(whole(worst_task(a.summary))),
        quick_rows(a, b)[1][2] == dur_pieces(whole(worst_task(b.summary))),
        quick_rows(a, b)[1][3] == change_html(whole(worst_task(a.summary)), whole(worst_task(b.summary))),
        quick_rows(a, b)[2][1] == dur_pieces(whole(a.summary.main_thread_busy as int)),
        quick_rows(a, b)[2][2] == dur_pieces(whole(b.summary.main_thread_busy as int)),
        quick_rows(a, b)[2][3] == change_html(
            whole(a.summary.main_thread_busy as int),
            whole(b.summary.main_thread_busy as int),
        ),
        quick_rows(a, b)[3][3] == change_html(a.layout_dirty.avg_dirty, b.layout_dirty.avg_dirty),
        quick_rows(a, b).len() == 5 ==> quick_rows(a, b)[4][3] == change_html(
            a.style_recalc.avg_elements,
            b.style_recalc.avg_elements,
        ),
        a.summary.long_tasks_top@.len() > 0 ==> worst_task(a.summary) == a.summary.long_tasks_top@[0],
{
}

/// A text is shown as it is up to the given length, and beyond it is cut there
/// with a mark.
pub proof fn lemma_shortened(s: Seq<char>, n: nat)
    ensures
        s.len() <= n ==> shortened(s, n) == s,
        s.len() > n ==> shortened(s, n).len() == n + 1 && shortened(s, n).last() == '…' && forall|i: int|
            0 <= i < n ==> #[trigger] shortened(s, n)[i] == s[i],
{
}

/// That there are more rows is said exactly where some are not shown.
pub proof fn lemma_more(top: usize, all: usize, what: Seq<char>)
    ensures
        more_pieces(top, all, what).len() > 0 <==> all > top,
        all > top ==> more_pieces(top, all, what)[1] == txt(decimal(top as nat)) && more_pieces(top, all, what)[3]
            == txt(decimal(all as nat)),
{
}

} // verus!
