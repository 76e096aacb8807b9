//! What the findings of a comparison say, held against the figures of the two
//! traces: what grew is a regression, what shrank an improvement, and each is
//! told exactly where it changed by more than its limit.

use vstd::prelude::*;
use crate::analysis::common::Ratio;
use crate::analysis::compare::{
    all_changes,
    average_pieces,
    bottlenecks,
    busy_change,
    by_severity,
    change,
    diff_num,
    diff_of,
    dirty_change,
    frames_fit,
    long_task_change,
    of_severity,
    over,
    pct_num,
    pct_of,
    plain_change,
    ratio_fits,
    scroll_change,
    scroll_changes,
    style_change,
    summary_fits,
    text,
    FindingSeverity,
    FindingView,
};
use crate::analysis::layout::LayoutDirtyResult;
use crate::analysis::scroll::ScrollFrameResult;
use crate::analysis::style::StyleRecalcResult;
use crate::analysis::summary::SummaryResult;
use crate::doc::{Num, PieceView};
use crate::text::decimal;

verus! {

/// How far two numbers lie apart.
pub open spec fn apart(x: int, y: int) -> int {
    if x < y {
        y - x
    } else {
        x - y
    }
}

/// The number is the change from one quotient to the other as a share of the
/// first, in percent, with its sign.
pub open spec fn tells_change(n: Num, a: Ratio, b: Ratio) -> bool {
    &&& n.den > 0
    &&& n.num * (a.num * b.den) == apart(a.num * b.den, b.num * a.den) * n.den
    &&& n.neg == (b.num * a.den < a.num * b.den)
    &&& n.times == 100
    &&& n.per == 1
    &&& n.plus
}

/// The quotient changed by more than `limit` percent of the first, which is not
/// zero.
pub open spec fn changed_by(a: Ratio, b: Ratio, limit: int) -> bool {
    a.num > 0 && apart(a.num * b.den, b.num * a.den) * 100 > limit * (a.num * b.den)
}

/// The findings of a category say what became of a figure: there is one where
/// it changed by more than the limit, and none elsewhere; growth is a
/// regression, shrinking an improvement; the change is told at the given place
/// of the message.
pub open spec fn category_right(
    found: Seq<FindingView>,
    category: Seq<char>,
    a: Ratio,
    b: Ratio,
    limit: int,
    place: int,
) -> bool {
    &&& changed_by(a, b, limit) ==> exists|i: int|
        0 <= i < found.len() && (#[trigger] found[i]).category == category
    &&& forall|i: int|
        0 <= i < found.len() && (#[trigger] found[i]).category == category ==> {
            &&& changed_by(a, b, limit)
            &&& b.num * a.den > a.num * b.den ==> found[i].severity == FindingSeverity::Regressed
            &&& b.num * a.den < a.num * b.den ==> found[i].severity == FindingSeverity::Improved
            &&& 0 <= place < found[i].message.len()
            &&& found[i].message[place] matches PieceView::Number(n) && tells_change(n, a, b)
        }
}

/// No finding is of the category.
pub open spec fn category_absent(found: Seq<FindingView>, category: Seq<char>) -> bool {
    forall|i: int| 0 <= i < found.len() ==> (#[trigger] found[i]).category != category
}

/// What the limit and the sign of a difference mean for the quotients.
pub proof fn lemma_diff(a: Ratio, b: Ratio, limit: int)
    requires
        ratio_fits(a),
        ratio_fits(b),
        1 <= limit <= 100,
    ensures
        over(diff_of(a, b), limit) <==> changed_by(a, b, limit),
        a.num > 0 ==> {
            let d = diff_of(a, b);
            &&& d.size.den == a.num * b.den
            &&& d.size.den > 0
            &&& d.size.num == apart(a.num * b.den, b.num * a.den)
            &&& d.neg == (b.num * a.den < a.num * b.den)
        },
{
    let (an, ad, bn, bd) = (a.num as int, a.den as int, b.num as int, b.den as int);
    let bound: int = 0x7fff_ffff_8000_0000_0000_0000;
    assert(-bound * 0xffff_ffff <= an * bd <= bound * 0xffff_ffff) by (nonlinear_arith)
        requires
            -bound <= an <= bound,
            1 <= bd <= 0xffff_ffff,
    ;
    assert(-bound * 0xffff_ffff <= bn * ad <= bound * 0xffff_ffff) by (nonlinear_arith)
        requires
            -bound <= bn <= bound,
            1 <= ad <= 0xffff_ffff,
    ;
    if an > 0 {
        assert(an * bd >= 1) by (nonlinear_arith)
            requires
                an >= 1,
                bd >= 1,
        ;
        assert(diff_num(a, b) == bn * ad - an * bd);
    }
}

/// A list holds what its parts hold.
proof fn lemma_parts_hold<T>(a: Seq<T>, b: Seq<T>, x: T)
    ensures
        (a + b).contains(x) <==> a.contains(x) || b.contains(x),
{
    if a.contains(x) {
        let i = choose|i: int| 0 <= i < a.len() && a[i] == x;
        assert((a + b)[i] == x);
    }
    if b.contains(x) {
        let i = choose|i: int| 0 <= i < b.len() && b[i] == x;
        assert((a + b)[a.len() + i] == x);
    }
    if (a + b).contains(x) {
        let i = choose|i: int| 0 <= i < (a + b).len() && (a + b)[i] == x;
        if i < a.len() {
            assert(a[i] == x);
        } else {
            assert(b[i - a.len()] == x);
        }
    }
}

proof fn lemma_severity_holds(f: Seq<FindingView>, s: FindingSeverity, x: FindingView)
    ensures
        of_severity(f, s).contains(x) <==> f.contains(x) && x.severity == s,
    decreases f.len(),
{
    if f.len() > 0 {
        let t = f.drop_last();
        lemma_severity_holds(t, s, x);
        lemma_parts_hold(t, seq![f.last()], x);
        assert(f =~= t + seq![f.last()]);
        assert(seq![f.last()].contains(x) <==> f.last() == x) by {
            assert(seq![f.last()][0] == f.last());
        }
        let before = of_severity(t, s);
        if f.last().severity == s {
            lemma_parts_hold(before, seq![f.last()], x);
            assert(before.push(f.last()) =~= before + seq![f.last()]);
        }
    } else {
        assert(!f.contains(x));
    }
}

/// Sorting by severity keeps the findings.
proof fn lemma_sorted_holds(f: Seq<FindingView>, x: FindingView)
    ensures
        by_severity(f).contains(x) <==> f.contains(x),
{
    let r = of_severity(f, FindingSeverity::Regressed);
    let i = of_severity(f, FindingSeverity::Improved);
    let n = of_severity(f, FindingSeverity::Neutral);
    lemma_severity_holds(f, FindingSeverity::Regressed, x);
    lemma_severity_holds(f, FindingSeverity::Improved, x);
    lemma_severity_holds(f, FindingSeverity::Neutral, x);
    lemma_parts_hold(r + i, n, x);
    lemma_parts_hold(r, i, x);
}

/// A change is one finding at most.
proof fn lemma_change(
    category: Seq<char>,
    a: Ratio,
    b: Ratio,
    limit: int,
    message: Seq<PieceView>,
    detail: Seq<PieceView>,
    place: int,
)
    requires
        ratio_fits(a),
        ratio_fits(b),
        1 <= limit <= 100,
        0 <= place < message.len(),
        message[place] matches PieceView::Number(n) && n.neg == diff_of(a, b).neg && n.num == diff_of(
            a,
            b,
        ).size.num && n.den == diff_of(a, b).size.den && n.times == 100 && n.per == 1 && n.plus,
    ensures
        category_right(
            change(category, diff_of(a, b), limit, message, detail),
            category,
            a,
            b,
            limit,
            place,
        ),
        forall|i: int|
            0 <= i < change(category, diff_of(a, b), limit, message, detail).len()
                ==> (#[trigger] change(category, diff_of(a, b), limit, message, detail)[i]).category
                == category,
{
    lemma_diff(a, b, limit);
    let c = change(category, diff_of(a, b), limit, message, detail);
    if changed_by(a, b, limit) {
        assert(c.len() == 1);
        assert(c[0].category == category);
    }
    assert forall|i: int| 0 <= i < c.len() && (#[trigger] c[i]).category == category implies {
        &&& changed_by(a, b, limit)
        &&& b.num * a.den > a.num * b.den ==> c[i].severity == FindingSeverity::Regressed
        &&& b.num * a.den < a.num * b.den ==> c[i].severity == FindingSeverity::Improved
        &&& 0 <= place < c[i].message.len()
        &&& c[i].message[place] matches PieceView::Number(n) && tells_change(n, a, b)
    } by {
        assert(i == 0);
        let d = diff_of(a, b);
        assert(d.size.num * (a.num * b.den) == apart(a.num * b.den, b.num * a.den) * d.size.den);
    }
}

/// What holds of the findings that hold the category holds of all of them.
proof fn lemma_lifted(
    part: Seq<FindingView>,
    found: Seq<FindingView>,
    category: Seq<char>,
    a: Ratio,
    b: Ratio,
    limit: int,
    place: int,
)
    requires
        category_right(part, category, a, b, limit, place),
        forall|x: FindingView| #[trigger] part.contains(x) ==> found.contains(x),
        forall|x: FindingView|
            found.contains(x) && x.category == category ==> #[trigger] part.contains(x),
    ensures
        category_right(found, category, a, b, limit, place),
{
    if changed_by(a, b, limit) {
        let i = choose|i: int| 0 <= i < part.len() && (#[trigger] part[i]).category == category;
        assert(part.contains(part[i]));
        let j = choose|j: int| 0 <= j < found.len() && found[j] == part[i];
        assert(found[j].category == category);
    }
    assert forall|i: int| 0 <= i < found.len() && (#[trigger] found[i]).category == category implies {
        &&& changed_by(a, b, limit)
        &&& b.num * a.den > a.num * b.den ==> found[i].severity == FindingSeverity::Regressed
        &&& b.num * a.den < a.num * b.den ==> found[i].severity == FindingSeverity::Improved
        &&& 0 <= place < found[i].message.len()
        &&& found[i].message[place] matches PieceView::Number(n) && tells_change(n, a, b)
    } by {
        assert(found.contains(found[i]));
        assert(part.contains(found[i]));
        let j = choose|j: int| 0 <= j < part.len() && part[j] == found[i];
        assert(part[j].category == category);
    }
}

/// The categories have different names.
proof fn lemma_categories_differ()
    ensures
        "Long Tasks"@ != "Scroll Duration"@,
        "Long Tasks"@ != "JS in Scroll"@,
        "Long Tasks"@ != "Style Recalc"@,
        "Long Tasks"@ != "Layout"@,
        "Long Tasks"@ != "Paint"@,
        "Long Tasks"@ != "HitTest"@,
        "Long Tasks"@ != "Composite"@,
        "Long Tasks"@ != "Main Thread"@,
        "Long Tasks"@ != "Layout Dirty"@,
        "Long Tasks"@ != "Style Elements"@,
        "Scroll Duration"@ != "JS in Scroll"@,
        "Scroll Duration"@ != "Style Recalc"@,
        "Scroll Duration"@ != "Layout"@,
        "Scroll Duration"@ != "Paint"@,
        "Scroll Duration"@ != "HitTest"@,
        "Scroll Duration"@ != "Composite"@,
        "Scroll Duration"@ != "Main Thread"@,
        "Scroll Duration"@ != "Layout Dirty"@,
        "Scroll Duration"@ != "Style Elements"@,
        "JS in Scroll"@ != "Style Recalc"@,
        "JS in Scroll"@ != "Layout"@,
        "JS in Scroll"@ != "Paint"@,
        "JS in Scroll"@ != "HitTest"@,
        "JS in Scroll"@ != "Composite"@,
        "JS in Scroll"@ != "Main Thread"@,
        "JS in Scroll"@ != "Layout Dirty"@,
        "JS in Scroll"@ != "Style Elements"@,
        "Style Recalc"@ != "Layout"@,
        "Style Recalc"@ != "Paint"@,
        "Style Recalc"@ != "HitTest"@,
        "Style Recalc"@ != "Composite"@,
        "Style Recalc"@ != "Main Thread"@,
        "Style Recalc"@ != "Layout Dirty"@,
        "Style Recalc"@ != "Style Elements"@,
        "Layout"@ != "Paint"@,
        "Layout"@ != "HitTest"@,
        "Layout"@ != "Composite"@,
        "Layout"@ != "Main Thread"@,
        "Layout"@ != "Layout Dirty"@,
        "Layout"@ != "Style Elements"@,
        "Paint"@ != "HitTest"@,
        "Paint"@ != "Composite"@,
        "Paint"@ != "Main Thread"@,
        "Paint"@ != "Layout Dirty"@,
        "Paint"@ != "Style Elements"@,
        "HitTest"@ != "Composite"@,
        "HitTest"@ != "Main Thread"@,
        "HitTest"@ != "Layout Dirty"@,
        "HitTest"@ != "Style Elements"@,
        "Composite"@ != "Main Thread"@,
        "Composite"@ != "Layout Dirty"@,
        "Composite"@ != "Style Elements"@,
        "Main Thread"@ != "Layout Dirty"@,
        "Main Thread"@ != "Style Elements"@,
        "Layout Dirty"@ != "Style Elements"@,
{
    reveal_strlit("Long Tasks");
    reveal_strlit("Scroll Duration");
    reveal_strlit("JS in Scroll");
    reveal_strlit("Style Recalc");
    reveal_strlit("Layout");
    reveal_strlit("Paint");
    reveal_strlit("HitTest");
    reveal_strlit("Composite");
    reveal_strlit("Main Thread");
    reveal_strlit("Layout Dirty");
    reveal_strlit("Style Elements");
    assert("Long Tasks"@.len() == 10);
    assert("Scroll Duration"@.len() == 15);
    assert("JS in Scroll"@.len() == 12);
    assert("Style Recalc"@.len() == 12);
    assert("Layout"@.len() == 6);
    assert("Paint"@.len() == 5);
    assert("HitTest"@.len() == 7);
    assert("Composite"@.len() == 9);
    assert("Main Thread"@.len() == 11);
    assert("Layout Dirty"@.len() == 12);
    assert("Style Elements"@.len() == 14);
    assert("JS in Scroll"@[0] == 'J' && "Style Recalc"@[0] == 'S' && "Layout Dirty"@[0] == 'L');
}

/// All findings of a part are of its category.
spec fn all_of(part: Seq<FindingView>, category: Seq<char>) -> bool {
    forall|i: int| 0 <= i < part.len() ==> (#[trigger] part[i]).category == category
}

proof fn lemma_only(part: Seq<FindingView>, category: Seq<char>, x: FindingView)
    requires
        all_of(part, category),
        part.contains(x),
    ensures
        x.category == category,
{
    let i = choose|i: int| 0 <= i < part.len() && part[i] == x;
}

/// Every finding says what became of its figure: the number of long tasks, the
/// averages of the scroll frames, the busy time, and the averages of dirty
/// objects and of styled elements.
#[verifier::spinoff_prover]
#[verifier::rlimit(50)]
pub proof fn lemma_findings_right(
    summary_a: SummaryResult,
    summary_b: SummaryResult,
    scroll_a: ScrollFrameResult,
    scroll_b: ScrollFrameResult,
    layout_a: LayoutDirtyResult,
    layout_b: LayoutDirtyResult,
    style_a: StyleRecalcResult,
    style_b: StyleRecalcResult,
    found: Seq<FindingView>,
)
    requires
        summary_fits(summary_a),
        summary_fits(summary_b),
        frames_fit(scroll_a),
        frames_fit(scroll_b),
        ratio_fits(layout_a.avg_dirty),
        ratio_fits(layout_b.avg_dirty),
        ratio_fits(style_a.avg_elements),
        ratio_fits(style_b.avg_elements),
        found == by_severity(
            all_changes(
                summary_a,
                summary_b,
                scroll_a,
                scroll_b,
                layout_a,
                layout_b,
                style_a,
                style_b,
            ),
        ),
    ensures
        category_right(found, "Long Tasks"@, (Ratio { num: summary_a.long_task_count as i128, den: 1 }), (Ratio { num: summary_b.long_task_count as i128, den: 1 }), 10, 4),
        scroll_a.tasks@.len() > 0 && scroll_b.tasks@.len() > 0 ==> category_right(found, "Scroll Duration"@, scroll_a.avg.dur, scroll_b.avg.dur, 5, 0),
        scroll_a.tasks@.len() == 0 || scroll_b.tasks@.len() == 0 ==> category_absent(found, "Scroll Duration"@),
        scroll_a.tasks@.len() > 0 && scroll_b.tasks@.len() > 0 ==> category_right(found, "JS in Scroll"@, scroll_a.avg.js, scroll_b.avg.js, 10, 0),
        scroll_a.tasks@.len() == 0 || scroll_b.tasks@.len() == 0 ==> category_absent(found, "JS in Scroll"@),
        scroll_a.tasks@.len() > 0 && scroll_b.tasks@.len() > 0 ==> category_right(found, "Style Recalc"@, scroll_a.avg.ult, scroll_b.avg.ult, 10, 0),
        scroll_a.tasks@.len() == 0 || scroll_b.tasks@.len() == 0 ==> category_absent(found, "Style Recalc"@),
        scroll_a.tasks@.len() > 0 && scroll_b.tasks@.len() > 0 ==> category_right(found, "Layout"@, scroll_a.avg.layout, scroll_b.avg.layout, 10, 0),
        scroll_a.tasks@.len() == 0 || scroll_b.tasks@.len() == 0 ==> category_absent(found, "Layout"@),
        scroll_a.tasks@.len() > 0 && scroll_b.tasks@.len() > 0 ==> category_right(found, "Paint"@, scroll_a.avg.paint, scroll_b.avg.paint, 10, 0),
        scroll_a.tasks@.len() == 0 || scroll_b.tasks@.len() == 0 ==> category_absent(found, "Paint"@),
        scroll_a.tasks@.len() > 0 && scroll_b.tasks@.len() > 0 ==> category_right(found, "HitTest"@, scroll_a.avg.hit_test, scroll_b.avg.hit_test, 10, 0),
        scroll_a.tasks@.len() == 0 || scroll_b.tasks@.len() == 0 ==> category_absent(found, "HitTest"@),
        scroll_a.tasks@.len() > 0 && scroll_b.tasks@.len() > 0 ==> category_right(found, "Composite"@, scroll_a.avg.composite, scroll_b.avg.composite, 10, 0),
        scroll_a.tasks@.len() == 0 || scroll_b.tasks@.len() == 0 ==> category_absent(found, "Composite"@),
        category_right(found, "Main Thread"@, (Ratio { num: summary_a.main_thread_busy, den: 1 }), (Ratio { num: summary_b.main_thread_busy, den: 1 }), 10, 0),
        category_right(found, "Layout Dirty"@, layout_a.avg_dirty, layout_b.avg_dirty, 15, 5),
        style_a.total_count > 0 && style_b.total_count > 0 ==> category_right(found, "Style Elements"@, style_a.avg_elements, style_b.avg_elements, 10, 5),
        style_a.total_count == 0 || style_b.total_count == 0 ==> category_absent(found, "Style Elements"@),
{
    let both = scroll_a.tasks@.len() > 0 && scroll_b.tasks@.len() > 0;
    let p0 = long_task_change(summary_a, summary_b);
    let p1 = if both {
        scroll_change("Scroll Duration"@, scroll_a.avg.dur, scroll_b.avg.dur, 5, "% avg scroll task time"@, bottlenecks(scroll_a.avg, scroll_b.avg))
    } else {
        Seq::empty()
    };
    let p2 = if both {
        plain_change("JS in Scroll"@, scroll_a.avg.js, scroll_b.avg.js, "% JS execution time"@)
    } else {
        Seq::empty()
    };
    let p3 = if both {
        plain_change("Style Recalc"@, scroll_a.avg.ult, scroll_b.avg.ult, "% UpdateLayoutTree time"@)
    } else {
        Seq::empty()
    };
    let p4 = if both {
        plain_change("Layout"@, scroll_a.avg.layout, scroll_b.avg.layout, "% layout time"@)
    } else {
        Seq::empty()
    };
    let p5 = if both {
        plain_change("Paint"@, scroll_a.avg.paint, scroll_b.avg.paint, "% paint time"@)
    } else {
        Seq::empty()
    };
    let p6 = if both {
        plain_change("HitTest"@, scroll_a.avg.hit_test, scroll_b.avg.hit_test, "% hit test time"@)
    } else {
        Seq::empty()
    };
    let p7 = if both {
        plain_change("Composite"@, scroll_a.avg.composite, scroll_b.avg.composite, "% composite time"@)
    } else {
        Seq::empty()
    };
    let p8 = busy_change(summary_a, summary_b);
    let p9 = dirty_change(layout_a, layout_b);
    let p10 = style_change(style_a, style_b);
    lemma_categories_differ();
    let all = all_changes(
        summary_a,
        summary_b,
        scroll_a,
        scroll_b,
        layout_a,
        layout_b,
        style_a,
        style_b,
    );
    let scroll = scroll_changes(scroll_a, scroll_b);
    assert(both ==> scroll == p1 + p2 + p3 + p4 + p5 + p6 + p7);
    assert(!both ==> scroll == Seq::<FindingView>::empty());
    assert(all == p0 + scroll + p8 + p9 + p10);
    assert(all_of(p0, "Long Tasks"@));
    assert(all_of(p1, "Scroll Duration"@));
    assert(all_of(p2, "JS in Scroll"@));
    assert(all_of(p3, "Style Recalc"@));
    assert(all_of(p4, "Layout"@));
    assert(all_of(p5, "Paint"@));
    assert(all_of(p6, "HitTest"@));
    assert(all_of(p7, "Composite"@));
    assert(all_of(p8, "Main Thread"@));
    assert(all_of(p9, "Layout Dirty"@));
    assert(all_of(p10, "Style Elements"@));
    assert forall|x: FindingView| #[trigger] found.contains(x) <==> (p0.contains(x) || p1.contains(x)
        || p2.contains(x) || p3.contains(x) || p4.contains(x) || p5.contains(x) || p6.contains(x)
        || p7.contains(x) || p8.contains(x) || p9.contains(x) || p10.contains(x)) by {
        lemma_sorted_holds(all, x);
        lemma_parts_hold(p0 + scroll + p8 + p9, p10, x);
        lemma_parts_hold(p0 + scroll + p8, p9, x);
        lemma_parts_hold(p0 + scroll, p8, x);
        lemma_parts_hold(p0, scroll, x);
        lemma_parts_hold(p1 + p2 + p3 + p4 + p5 + p6, p7, x);
        lemma_parts_hold(p1 + p2 + p3 + p4 + p5, p6, x);
        lemma_parts_hold(p1 + p2 + p3 + p4, p5, x);
        lemma_parts_hold(p1 + p2 + p3, p4, x);
        lemma_parts_hold(p1 + p2, p3, x);
        lemma_parts_hold(p1, p2, x);
    }
    assert forall|x: FindingView| found.contains(x) && x.category == "Long Tasks"@ implies #[trigger] p0.contains(x) by {
        if p1.contains(x) {
            lemma_only(p1, "Scroll Duration"@, x);
        }
        if p2.contains(x) {
            lemma_only(p2, "JS in Scroll"@, x);
        }
        if p3.contains(x) {
            lemma_only(p3, "Style Recalc"@, x);
        }
        if p4.contains(x) {
            lemma_only(p4, "Layout"@, x);
        }
        if p5.contains(x) {
            lemma_only(p5, "Paint"@, x);
        }
        if p6.contains(x) {
            lemma_only(p6, "HitTest"@, x);
        }
        if p7.contains(x) {
            lemma_only(p7, "Composite"@, x);
        }
        if p8.contains(x) {
            lemma_only(p8, "Main Thread"@, x);
        }
        if p9.contains(x) {
            lemma_only(p9, "Layout Dirty"@, x);
        }
        if p10.contains(x) {
            lemma_only(p10, "Style Elements"@, x);
        }
    }
    assert forall|x: FindingView| found.contains(x) && x.category == "Scroll Duration"@ implies #[trigger] p1.contains(x) by {
        if p0.contains(x) {
            lemma_only(p0, "Long Tasks"@, x);
        }
        if p2.contains(x) {
            lemma_only(p2, "JS in Scroll"@, x);
        }
        if p3.contains(x) {
            lemma_only(p3, "Style Recalc"@, x);
        }
        if p4.contains(x) {
            lemma_only(p4, "Layout"@, x);
        }
        if p5.contains(x) {
            lemma_only(p5, "Paint"@, x);
        }
        if p6.contains(x) {
            lemma_only(p6, "HitTest"@, x);
        }
        if p7.contains(x) {
            lemma_only(p7, "Composite"@, x);
        }
        if p8.contains(x) {
            lemma_only(p8, "Main Thread"@, x);
        }
        if p9.contains(x) {
            lemma_only(p9, "Layout Dirty"@, x);
        }
        if p10.contains(x) {
            lemma_only(p10, "Style Elements"@, x);
        }
    }
    assert forall|x: FindingView| found.contains(x) && x.category == "JS in Scroll"@ implies #[trigger] p2.contains(x) by {
        if p0.contains(x) {
            lemma_only(p0, "Long Tasks"@, x);
        }
        if p1.contains(x) {
            lemma_only(p1, "Scroll Duration"@, x);
        }
        if p3.contains(x) {
            lemma_only(p3, "Style Recalc"@, x);
        }
        if p4.contains(x) {
            lemma_only(p4, "Layout"@, x);
        }
        if p5.contains(x) {
            lemma_only(p5, "Paint"@, x);
        }
        if p6.contains(x) {
            lemma_only(p6, "HitTest"@, x);
        }
        if p7.contains(x) {
            lemma_only(p7, "Composite"@, x);
        }
        if p8.contains(x) {
            lemma_only(p8, "Main Thread"@, x);
        }
        if p9.contains(x) {
            lemma_only(p9, "Layout Dirty"@, x);
        }
        if p10.contains(x) {
            lemma_only(p10, "Style Elements"@, x);
        }
    }
    assert forall|x: FindingView| found.contains(x) && x.category == "Style Recalc"@ implies #[trigger] p3.contains(x) by {
        if p0.contains(x) {
            lemma_only(p0, "Long Tasks"@, x);
        }
        if p1.contains(x) {
            lemma_only(p1, "Scroll Duration"@, x);
        }
        if p2.contains(x) {
            lemma_only(p2, "JS in Scroll"@, x);
        }
        if p4.contains(x) {
            lemma_only(p4, "Layout"@, x);
        }
        if p5.contains(x) {
            lemma_only(p5, "Paint"@, x);
        }
        if p6.contains(x) {
            lemma_only(p6, "HitTest"@, x);
        }
        if p7.contains(x) {
            lemma_only(p7, "Composite"@, x);
        }
        if p8.contains(x) {
            lemma_only(p8, "Main Thread"@, x);
        }
        if p9.contains(x) {
            lemma_only(p9, "Layout Dirty"@, x);
        }
        if p10.contains(x) {
            lemma_only(p10, "Style Elements"@, x);
        }
    }
    assert forall|x: FindingView| found.contains(x) && x.category == "Layout"@ implies #[trigger] p4.contains(x) by {
        if p0.contains(x) {
            lemma_only(p0, "Long Tasks"@, x);
        }
        if p1.contains(x) {
            lemma_only(p1, "Scroll Duration"@, x);
        }
        if p2.contains(x) {
            lemma_only(p2, "JS in Scroll"@, x);
        }
        if p3.contains(x) {
            lemma_only(p3, "Style Recalc"@, x);
        }
        if p5.contains(x) {
            lemma_only(p5, "Paint"@, x);
        }
        if p6.contains(x) {
            lemma_only(p6, "HitTest"@, x);
        }
        if p7.contains(x) {
            lemma_only(p7, "Composite"@, x);
        }
        if p8.contains(x) {
            lemma_only(p8, "Main Thread"@, x);
        }
        if p9.contains(x) {
            lemma_only(p9, "Layout Dirty"@, x);
        }
        if p10.contains(x) {
            lemma_only(p10, "Style Elements"@, x);
        }
    }
    assert forall|x: FindingView| found.contains(x) && x.category == "Paint"@ implies #[trigger] p5.contains(x) by {
        if p0.contains(x) {
            lemma_only(p0, "Long Tasks"@, x);
        }
        if p1.contains(x) {
            lemma_only(p1, "Scroll Duration"@, x);
        }
        if p2.contains(x) {
            lemma_only(p2, "JS in Scroll"@, x);
        }
        if p3.contains(x) {
            lemma_only(p3, "Style Recalc"@, x);
        }
        if p4.contains(x) {
            lemma_only(p4, "Layout"@, x);
        }
        if p6.contains(x) {
            lemma_only(p6, "HitTest"@, x);
        }
        if p7.contains(x) {
            lemma_only(p7, "Composite"@, x);
        }
        if p8.contains(x) {
            lemma_only(p8, "Main Thread"@, x);
        }
        if p9.contains(x) {
            lemma_only(p9, "Layout Dirty"@, x);
        }
        if p10.contains(x) {
            lemma_only(p10, "Style Elements"@, x);
        }
    }
    assert forall|x: FindingView| found.contains(x) && x.category == "HitTest"@ implies #[trigger] p6.contains(x) by {
        if p0.contains(x) {
            lemma_only(p0, "Long Tasks"@, x);
        }
        if p1.contains(x) {
            lemma_only(p1, "Scroll Duration"@, x);
        }
        if p2.contains(x) {
            lemma_only(p2, "JS in Scroll"@, x);
        }
        if p3.contains(x) {
            lemma_only(p3, "Style Recalc"@, x);
        }
        if p4.contains(x) {
            lemma_only(p4, "Layout"@, x);
        }
        if p5.contains(x) {
            lemma_only(p5, "Paint"@, x);
        }
        if p7.contains(x) {
            lemma_only(p7, "Composite"@, x);
        }
        if p8.contains(x) {
            lemma_only(p8, "Main Thread"@, x);
        }
        if p9.contains(x) {
            lemma_only(p9, "Layout Dirty"@, x);
        }
        if p10.contains(x) {
            lemma_only(p10, "Style Elements"@, x);
        }
    }
    assert forall|x: FindingView| found.contains(x) && x.category == "Composite"@ implies #[trigger] p7.contains(x) by {
        if p0.contains(x) {
            lemma_only(p0, "Long Tasks"@, x);
        }
        if p1.contains(x) {
            lemma_only(p1, "Scroll Duration"@, x);
        }
        if p2.contains(x) {
            lemma_only(p2, "JS in Scroll"@, x);
        }
        if p3.contains(x) {
            lemma_only(p3, "Style Recalc"@, x);
        }
        if p4.contains(x) {
            lemma_only(p4, "Layout"@, x);
        }
        if p5.contains(x) {
            lemma_only(p5, "Paint"@, x);
        }
        if p6.contains(x) {
            lemma_only(p6, "HitTest"@, x);
        }
        if p8.contains(x) {
            lemma_only(p8, "Main Thread"@, x);
        }
        if p9.contains(x) {
            lemma_only(p9, "Layout Dirty"@, x);
        }
        if p10.contains(x) {
            lemma_only(p10, "Style Elements"@, x);
        }
    }
    assert forall|x: FindingView| found.contains(x) && x.category == "Main Thread"@ implies #[trigger] p8.contains(x) by {
        if p0.contains(x) {
            lemma_only(p0, "Long Tasks"@, x);
        }
        if p1.contains(x) {
            lemma_only(p1, "Scroll Duration"@, x);
        }
        if p2.contains(x) {
            lemma_only(p2, "JS in Scroll"@, x);
        }
        if p3.contains(x) {
            lemma_only(p3, "Style Recalc"@, x);
        }
        if p4.contains(x) {
            lemma_only(p4, "Layout"@, x);
        }
        if p5.contains(x) {
            lemma_only(p5, "Paint"@, x);
        }
        if p6.contains(x) {
            lemma_only(p6, "HitTest"@, x);
        }
        if p7.contains(x) {
            lemma_only(p7, "Composite"@, x);
        }
        if p9.contains(x) {
            lemma_only(p9, "Layout Dirty"@, x);
        }
        if p10.contains(x) {
            lemma_only(p10, "Style Elements"@, x);
        }
    }
    assert forall|x: FindingView| found.contains(x) && x.category == "Layout Dirty"@ implies #[trigger] p9.contains(x) by {
        if p0.contains(x) {
            lemma_only(p0, "Long Tasks"@, x);
        }
        if p1.contains(x) {
            lemma_only(p1, "Scroll Duration"@, x);
        }
        if p2.contains(x) {
            lemma_only(p2, "JS in Scroll"@, x);
        }
        if p3.contains(x) {
            lemma_only(p3, "Style Recalc"@, x);
        }
        if p4.contains(x) {
            lemma_only(p4, "Layout"@, x);
        }
        if p5.contains(x) {
            lemma_only(p5, "Paint"@, x);
        }
        if p6.contains(x) {
            lemma_only(p6, "HitTest"@, x);
        }
        if p7.contains(x) {
            lemma_only(p7, "Composite"@, x);
        }
        if p8.contains(x) {
            lemma_only(p8, "Main Thread"@, x);
        }
        if p10.contains(x) {
            lemma_only(p10, "Style Elements"@, x);
        }
    }
    assert forall|x: FindingView| found.contains(x) && x.category == "Style Elements"@ implies #[trigger] p10.contains(x) by {
        if p0.contains(x) {
            lemma_only(p0, "Long Tasks"@, x);
        }
        if p1.contains(x) {
            lemma_only(p1, "Scroll Duration"@, x);
        }
        if p2.contains(x) {
            lemma_only(p2, "JS in Scroll"@, x);
        }
        if p3.contains(x) {
            lemma_only(p3, "Style Recalc"@, x);
        }
        if p4.contains(x) {
            lemma_only(p4, "Layout"@, x);
        }
        if p5.contains(x) {
            lemma_only(p5, "Paint"@, x);
        }
        if p6.contains(x) {
            lemma_only(p6, "HitTest"@, x);
        }
        if p7.contains(x) {
            lemma_only(p7, "Composite"@, x);
        }
        if p8.contains(x) {
            lemma_only(p8, "Main Thread"@, x);
        }
        if p9.contains(x) {
            lemma_only(p9, "Layout Dirty"@, x);
        }
    }
    lemma_long_part(summary_a, summary_b);
    lemma_lifted(p0, found, "Long Tasks"@, Ratio { num: summary_a.long_task_count as i128, den: 1 }, Ratio { num: summary_b.long_task_count as i128, den: 1 }, 10, 4);
    if both {
        lemma_scroll_part("Scroll Duration"@, scroll_a.avg.dur, scroll_b.avg.dur, 5, "% avg scroll task time"@, bottlenecks(scroll_a.avg, scroll_b.avg));
        lemma_lifted(p1, found, "Scroll Duration"@, scroll_a.avg.dur, scroll_b.avg.dur, 5, 0);
    } else {
        lemma_absent(p1, found, "Scroll Duration"@);
    }
    if both {
        lemma_scroll_part("JS in Scroll"@, scroll_a.avg.js, scroll_b.avg.js, 10, "% JS execution time"@, Seq::empty());
        lemma_lifted(p2, found, "JS in Scroll"@, scroll_a.avg.js, scroll_b.avg.js, 10, 0);
    } else {
        lemma_absent(p2, found, "JS in Scroll"@);
    }
    if both {
        lemma_scroll_part("Style Recalc"@, scroll_a.avg.ult, scroll_b.avg.ult, 10, "% UpdateLayoutTree time"@, Seq::empty());
        lemma_lifted(p3, found, "Style Recalc"@, scroll_a.avg.ult, scroll_b.avg.ult, 10, 0);
    } else {
        lemma_absent(p3, found, "Style Recalc"@);
    }
    if both {
        lemma_scroll_part("Layout"@, scroll_a.avg.layout, scroll_b.avg.layout, 10, "% layout time"@, Seq::empty());
        lemma_lifted(p4, found, "Layout"@, scroll_a.avg.layout, scroll_b.avg.layout, 10, 0);
    } else {
        lemma_absent(p4, found, "Layout"@);
    }
    if both {
        lemma_scroll_part("Paint"@, scroll_a.avg.paint, scroll_b.avg.paint, 10, "% paint time"@, Seq::empty());
        lemma_lifted(p5, found, "Paint"@, scroll_a.avg.paint, scroll_b.avg.paint, 10, 0);
    } else {
        lemma_absent(p5, found, "Paint"@);
    }
    if both {
        lemma_scroll_part("HitTest"@, scroll_a.avg.hit_test, scroll_b.avg.hit_test, 10, "% hit test time"@, Seq::empty());
        lemma_lifted(p6, found, "HitTest"@, scroll_a.avg.hit_test, scroll_b.avg.hit_test, 10, 0);
    } else {
        lemma_absent(p6, found, "HitTest"@);
    }
    if both {
        lemma_scroll_part("Composite"@, scroll_a.avg.composite, scroll_b.avg.composite, 10, "% composite time"@, Seq::empty());
        lemma_lifted(p7, found, "Composite"@, scroll_a.avg.composite, scroll_b.avg.composite, 10, 0);
    } else {
        lemma_absent(p7, found, "Composite"@);
    }
    lemma_busy_part(summary_a, summary_b);
    lemma_lifted(p8, found, "Main Thread"@, Ratio { num: summary_a.main_thread_busy, den: 1 }, Ratio { num: summary_b.main_thread_busy, den: 1 }, 10, 0);
    lemma_dirty_part(layout_a, layout_b);
    lemma_lifted(p9, found, "Layout Dirty"@, layout_a.avg_dirty, layout_b.avg_dirty, 15, 5);
    if style_a.total_count > 0 && style_b.total_count > 0 {
        lemma_style_part(style_a, style_b);
        lemma_lifted(p10, found, "Style Elements"@, style_a.avg_elements, style_b.avg_elements, 10, 5);
    } else {
        lemma_absent(p10, found, "Style Elements"@);
    }
}

proof fn lemma_absent(part: Seq<FindingView>, found: Seq<FindingView>, category: Seq<char>)
    requires
        part.len() == 0,
        forall|x: FindingView|
            found.contains(x) && x.category == category ==> #[trigger] part.contains(x),
    ensures
        category_absent(found, category),
{
    assert forall|i: int| 0 <= i < found.len() implies (#[trigger] found[i]).category != category by {
        if found[i].category == category {
            assert(found.contains(found[i]));
            assert(part.contains(found[i]));
        }
    }
}

proof fn lemma_scroll_part(
    category: Seq<char>,
    a: Ratio,
    b: Ratio,
    limit: int,
    what: Seq<char>,
    detail: Seq<PieceView>,
)
    requires
        ratio_fits(a),
        ratio_fits(b),
        1 <= limit <= 100,
    ensures
        category_right(scroll_change(category, a, b, limit, what, detail), category, a, b, limit, 0),
{
    let d = diff_of(a, b);
    lemma_change(category, a, b, limit, pct_of(d, what), detail, 0);
}

proof fn lemma_long_part(a: SummaryResult, b: SummaryResult)
    ensures
        category_right(
            long_task_change(a, b),
            "Long Tasks"@,
            (Ratio { num: a.long_task_count as i128, den: 1 }),
            (Ratio { num: b.long_task_count as i128, den: 1 }),
            10,
            4,
        ),
{
    let x = Ratio { num: a.long_task_count as i128, den: 1 };
    let y = Ratio { num: b.long_task_count as i128, den: 1 };
    let d = diff_of(x, y);
    lemma_change(
        "Long Tasks"@,
        x,
        y,
        10,
        seq![
            text(decimal(a.long_task_count as nat)),
            text(" -> "@),
            text(decimal(b.long_task_count as nat)),
            text(" ("@),
            PieceView::Number(pct_num(d, 0)),
            text("%)"@),
        ],
        seq![
            text(
                if d.neg {
                    "Fewer long tasks blocking the main thread"@
                } else {
                    "More long tasks blocking the main thread"@
                },
            ),
        ],
        4,
    );
}

proof fn lemma_busy_part(a: SummaryResult, b: SummaryResult)
    requires
        summary_fits(a),
        summary_fits(b),
    ensures
        category_right(
            busy_change(a, b),
            "Main Thread"@,
            (Ratio { num: a.main_thread_busy, den: 1 }),
            (Ratio { num: b.main_thread_busy, den: 1 }),
            10,
            0,
        ),
{
    let x = Ratio { num: a.main_thread_busy, den: 1 };
    let y = Ratio { num: b.main_thread_busy, den: 1 };
    lemma_change("Main Thread"@, x, y, 10, pct_of(diff_of(x, y), "% total busy time"@), seq![], 0);
}

proof fn lemma_dirty_part(a: LayoutDirtyResult, b: LayoutDirtyResult)
    requires
        ratio_fits(a.avg_dirty),
        ratio_fits(b.avg_dirty),
    ensures
        category_right(
            dirty_change(a, b),
            "Layout Dirty"@,
            a.avg_dirty,
            b.avg_dirty,
            15,
            5,
        ),
{
    lemma_change(
        "Layout Dirty"@,
        a.avg_dirty,
        b.avg_dirty,
        15,
        average_pieces("Avg dirty "@, a.avg_dirty, b.avg_dirty),
        seq![],
        5,
    );
}

proof fn lemma_style_part(a: StyleRecalcResult, b: StyleRecalcResult)
    requires
        ratio_fits(a.avg_elements),
        ratio_fits(b.avg_elements),
        a.total_count > 0,
        b.total_count > 0,
    ensures
        category_right(
            style_change(a, b),
            "Style Elements"@,
            a.avg_elements,
            b.avg_elements,
            10,
            5,
        ),
{
    lemma_change(
        "Style Elements"@,
        a.avg_elements,
        b.avg_elements,
        10,
        average_pieces("Avg "@, a.avg_elements, b.avg_elements),
        seq![
            text("Max "@),
            text(decimal(a.max_elements as nat)),
            text(" -> "@),
            text(decimal(b.max_elements as nat)),
        ],
        5,
    );
}

} // verus!
