//! Comparison of two traces: averages by event name, scroll frames, functions,
//! and what to make of the differences.

use vstd::prelude::*;
use crate::analysis::common::Ratio;
use crate::analysis::cpu::{CpuProfileResult, FunctionTime, SourceType};
use crate::analysis::layout::LayoutDirtyResult;
use crate::analysis::scroll::{
    average_costs,
    bottleneck_label,
    FrameAverages,
    ScrollFramePercentiles,
    ScrollFrameResult,
};
use crate::analysis::style::StyleRecalcResult;
use crate::analysis::summary::{EventTypeStat, SummaryResult};
use crate::doc::{
    abs,
    doc_view,
    magnitude,
    make_ratio,
    put,
    put_num,
    put_u64,
    ratio_num,
    Doc,
    Num,
    PieceView,
};
use crate::frac::{frac_less, is_less, largest_first, proper, top_fracs, Frac};
use crate::text::{decimal, insert_pair, pair_less, pair_texts, pairs_sorted, same, text_less};

verus! {

/// A relative difference: what the second value is more (or less) than the
/// first, as a share of the first.
#[derive(Clone, Copy)]
pub struct Diff {
    pub neg: bool,
    pub size: Frac,
}

/// The largest numerator of a quotient that is compared.
pub const NUM_BOUND: i128 = 0x7fff_ffff_8000_0000_0000_0000;

/// A quotient whose parts are small enough to be compared exactly.
pub open spec fn ratio_fits(r: Ratio) -> bool {
    -NUM_BOUND <= r.num <= NUM_BOUND && 1 <= r.den <= u32::MAX
}

/// `b - a` over `a`, times the product of the denominators.
pub open spec fn diff_num(a: Ratio, b: Ratio) -> int {
    b.num * a.den - a.num * b.den
}

/// The relative difference of two quotients; none where the first is not
/// positive.
pub open spec fn diff_of(a: Ratio, b: Ratio) -> Diff {
    if a.num > 0 {
        Diff {
            neg: diff_num(a, b) < 0,
            size: Frac { num: magnitude(diff_num(a, b)) as u128, den: (a.num * b.den) as u128 },
        }
    } else {
        Diff { neg: false, size: Frac { num: 0, den: 1 } }
    }
}

proof fn lemma_products(a: Ratio, b: Ratio)
    requires
        ratio_fits(a),
        ratio_fits(b),
    ensures
        -NUM_BOUND * u32::MAX <= a.num * b.den <= NUM_BOUND * u32::MAX,
        -NUM_BOUND * u32::MAX <= b.num * a.den <= NUM_BOUND * u32::MAX,
        a.num > 0 ==> a.num * b.den >= 1,
{
    let (an, ad, bn, bd) = (a.num as int, a.den as int, b.num as int, b.den as int);
    assert(-NUM_BOUND * u32::MAX <= an * bd <= NUM_BOUND * u32::MAX) by (nonlinear_arith)
        requires
            -NUM_BOUND <= an <= NUM_BOUND,
            1 <= bd <= u32::MAX,
    ;
    assert(-NUM_BOUND * u32::MAX <= bn * ad <= NUM_BOUND * u32::MAX) by (nonlinear_arith)
        requires
            -NUM_BOUND <= bn <= NUM_BOUND,
            1 <= ad <= u32::MAX,
    ;
    if an > 0 {
        assert(an * bd >= 1) by (nonlinear_arith)
            requires
                an >= 1,
                bd >= 1,
        ;
    }
}

/// The relative difference of two quotients.
pub fn pct_diff(a: Ratio, b: Ratio) -> (r: Diff)
    requires
        ratio_fits(a),
        ratio_fits(b),
    ensures
        r == diff_of(a, b),
        r.size.den > 0,
{
    if a.num <= 0 {
        return Diff { neg: false, size: Frac { num: 0, den: 1 } };
    }
    proof {
        lemma_products(a, b);
    }
    let x: i128 = b.num * a.den;
    let y: i128 = a.num * b.den;
    // The difference needs one bit more than either product.
    let neg = x < y;
    let size: u128 = if x >= 0 {
        if neg {
            (y - x) as u128
        } else {
            (x - y) as u128
        }
    } else {
        abs(x) + y as u128
    };
    Diff { neg, size: Frac { num: size, den: y as u128 } }
}

/// The difference is more than `limit` percent either way.
pub open spec fn over(d: Diff, limit: int) -> bool {
    frac_less(Frac { num: limit as u128, den: 100 }, d.size)
}

pub fn is_over(d: Diff, limit: u128) -> (r: bool)
    requires
        d.size.den > 0,
    ensures
        r == over(d, limit as int),
{
    is_less(Frac { num: limit, den: 100 }, d.size)
}

/// A relative difference as a signed percentage.
pub open spec fn pct_num(d: Diff, decimals: u8) -> Num {
    Num { neg: d.neg, num: d.size.num, den: d.size.den, times: 100, per: 1, decimals, plus: true }
}

pub fn make_pct(d: Diff, decimals: u8) -> (r: Num)
    ensures
        r == pct_num(d, decimals),
{
    Num { neg: d.neg, num: d.size.num, den: d.size.den, times: 100, per: 1, decimals, plus: true }
}

/// One event name in both traces.
pub struct CompareRow {
    pub event_name: String,
    pub count_a: usize,
    pub count_b: usize,
    pub avg_a: Ratio,
    pub avg_b: Ratio,
    pub diff: Diff,
}

/// One function in both traces. The shares are those of all sample time.
pub struct CpuFunctionDiff {
    pub function_name: String,
    pub url: String,
    pub source_type: SourceType,
    pub time_a: i128,
    pub time_b: i128,
    pub share_a: Ratio,
    pub share_b: Ratio,
    pub diff: Diff,
}

/// What a difference means.
#[derive(Clone, Copy, PartialEq, Eq, Structural)]
pub enum FindingSeverity {
    Improved,
    Regressed,
    Neutral,
}

/// A difference worth telling.
pub struct Finding {
    pub severity: FindingSeverity,
    pub category: &'static str,
    pub message: Doc,
    pub detail: Doc,
}

/// What a finding says.
pub struct FindingView {
    pub severity: FindingSeverity,
    pub category: Seq<char>,
    pub message: Seq<PieceView>,
    pub detail: Seq<PieceView>,
}

impl View for Finding {
    type V = FindingView;

    open spec fn view(&self) -> FindingView {
        FindingView {
            severity: self.severity,
            category: self.category@,
            message: doc_view(self.message@),
            detail: doc_view(self.detail@),
        }
    }
}

/// The comparison of two traces, with the figures that it was made from. A
/// trace without scroll frames has no averages of them.
pub struct CompareResult<'a> {
    pub rows: Vec<CompareRow>,
    pub scroll_avg_a: Option<FrameAverages>,
    pub scroll_avg_b: Option<FrameAverages>,
    pub scroll_pct_a: ScrollFramePercentiles,
    pub scroll_pct_b: ScrollFramePercentiles,
    pub scroll_count_a: usize,
    pub scroll_count_b: usize,
    pub summary_a: &'a SummaryResult,
    pub summary_b: &'a SummaryResult,
    pub cpu_diff: Vec<CpuFunctionDiff>,
    pub layout_a: &'a LayoutDirtyResult,
    pub layout_b: &'a LayoutDirtyResult,
    pub style_recalc_a: &'a StyleRecalcResult,
    pub style_recalc_b: &'a StyleRecalcResult,
    pub findings: Vec<Finding>,
}

/// The averages of the scroll frames, where there are any.
pub open spec fn frame_avg(s: ScrollFrameResult) -> Option<FrameAverages> {
    if s.tasks@.len() == 0 {
        None
    } else {
        Some(s.avg)
    }
}

fn scroll_avg(s: &ScrollFrameResult) -> (r: Option<FrameAverages>)
    ensures
        r == frame_avg(*s),
{
    if s.tasks.len() == 0 {
        None
    } else {
        Some(s.avg)
    }
}

/// The result holds the scroll frames' figures of both traces.
pub open spec fn holds_scroll(r: CompareResult, a: ScrollFrameResult, b: ScrollFrameResult) -> bool {
    &&& r.scroll_avg_a == frame_avg(a)
    &&& r.scroll_avg_b == frame_avg(b)
    &&& r.scroll_pct_a == a.percentiles
    &&& r.scroll_pct_b == b.percentiles
    &&& r.scroll_count_a == a.tasks@.len()
    &&& r.scroll_count_b == b.tasks@.len()
}

pub open spec fn zero() -> Ratio {
    Ratio { num: 0, den: 1 }
}

/// The figures of the last entry with the given name.
pub open spec fn stat_named(stats: Seq<EventTypeStat>, name: Seq<char>) -> Option<EventTypeStat>
    decreases stats.len(),
{
    if stats.len() == 0 {
        None
    } else if stats.last().name@ == name {
        Some(stats.last())
    } else {
        stat_named(stats.drop_last(), name)
    }
}

pub open spec fn avg_of(s: Option<EventTypeStat>) -> Ratio {
    match s {
        Some(x) => x.avg_time,
        None => zero(),
    }
}

pub open spec fn count_of(s: Option<EventTypeStat>) -> usize {
    match s {
        Some(x) => x.count,
        None => 0,
    }
}

/// The row of a name.
pub open spec fn row_of(a: Seq<EventTypeStat>, b: Seq<EventTypeStat>, name: Seq<char>, r: CompareRow) -> bool {
    let sa = stat_named(a, name);
    let sb = stat_named(b, name);
    &&& r.event_name@ == name
    &&& r.count_a == count_of(sa)
    &&& r.count_b == count_of(sb)
    &&& r.avg_a == avg_of(sa)
    &&& r.avg_b == avg_of(sb)
    &&& r.diff == diff_of(avg_of(sa), avg_of(sb))
}

/// A name of either list.
pub open spec fn names_either(a: Seq<EventTypeStat>, b: Seq<EventTypeStat>, name: Seq<char>) -> bool {
    stat_named(a, name) is Some || stat_named(b, name) is Some
}

/// `names` holds the names of both lists, each once, in their order.
pub open spec fn sorted_names(a: Seq<EventTypeStat>, b: Seq<EventTypeStat>, names: Seq<Seq<char>>) -> bool {
    &&& forall|i: int| 0 <= i < names.len() ==> names_either(a, b, #[trigger] names[i])
    &&& forall|i: int, j: int|
        0 <= i < j < names.len() ==> text_less(#[trigger] names[i], #[trigger] names[j])
    &&& forall|name: Seq<char>| #[trigger] names_either(a, b, name) ==> names.contains(name)
}

/// The sizes of the differences of the names.
pub open spec fn name_sizes(a: Seq<EventTypeStat>, b: Seq<EventTypeStat>, names: Seq<Seq<char>>) -> Seq<Frac> {
    names.map_values(
        |name: Seq<char>| diff_of(avg_of(stat_named(a, name)), avg_of(stat_named(b, name))).size,
    )
}

/// The rows: one per name, the largest difference first.
pub open spec fn rows_of(a: Seq<EventTypeStat>, b: Seq<EventTypeStat>, rows: Seq<CompareRow>) -> bool {
    exists|names: Seq<Seq<char>>, top: Seq<usize>|
        {
            &&& #[trigger] sorted_names(a, b, names)
            &&& #[trigger] largest_first(name_sizes(a, b, names), names.len(), top)
            &&& rows.len() == top.len()
            &&& forall|i: int|
                0 <= i < rows.len() ==> row_of(a, b, names[top[i] as int], #[trigger] rows[i])
        }
}

/// Every average of the list can be compared.
pub open spec fn stats_fit(s: Seq<EventTypeStat>) -> bool {
    forall|i: int| 0 <= i < s.len() ==> ratio_fits((#[trigger] s[i]).avg_time)
}

fn find_stat<'a>(stats: &'a Vec<EventTypeStat>, name: &str) -> (r: Option<&'a EventTypeStat>)
    ensures
        match r {
            Some(s) => stat_named(stats@, name@) == Some(*s) && stats@.contains(*s),
            None => stat_named(stats@, name@) is None,
        },
{
    let mut i: usize = stats.len();
    assert(stats@.take(stats@.len() as int) =~= stats@);
    while i > 0
        invariant
            i <= stats@.len(),
            stat_named(stats@, name@) == stat_named(stats@.take(i as int), name@),
        decreases i,
    {
        assert(stats@.take(i as int).drop_last() =~= stats@.take(i - 1));
        if same(stats[i - 1].name, name) {
            assert(stats@[i - 1] == stats[i - 1]);
            return Some(&stats[i - 1]);
        }
        i = i - 1;
    }
    None
}

/// The names of a list are among the pairs.
proof fn lemma_stat_named(stats: Seq<EventTypeStat>, name: Seq<char>)
    ensures
        stat_named(stats, name) is Some <==> exists|i: int|
            0 <= i < stats.len() && (#[trigger] stats[i]).name@ == name,
    decreases stats.len(),
{
    if stats.len() > 0 {
        let t = stats.drop_last();
        lemma_stat_named(t, name);
        if stats.last().name@ == name {
            assert(stats[stats.len() - 1].name@ == name);
        }
        if exists|i: int| 0 <= i < stats.len() && (#[trigger] stats[i]).name@ == name {
            let i = choose|i: int| 0 <= i < stats.len() && (#[trigger] stats[i]).name@ == name;
            if i < t.len() {
                assert(t[i].name@ == name);
            }
        }
        if exists|i: int| 0 <= i < t.len() && (#[trigger] t[i]).name@ == name {
            let i = choose|i: int| 0 <= i < t.len() && (#[trigger] t[i]).name@ == name;
            assert(stats[i].name@ == name);
        }
    }
}

fn add_names(v: &mut Vec<(String, String)>, stats: &Vec<EventTypeStat>)
    requires
        pairs_sorted(pair_texts(old(v)@)),
    ensures
        pairs_sorted(pair_texts(final(v)@)),
        forall|p: (Seq<char>, Seq<char>)| #[trigger]
            pair_texts(final(v)@).contains(p) <==> pair_texts(old(v)@).contains(p) || (p.1
                == Seq::<char>::empty() && stat_named(stats@, p.0) is Some),
{
    let ghost before = pair_texts(v@);
    let mut i: usize = 0;
    while i < stats.len()
        invariant
            i <= stats@.len(),
            pairs_sorted(pair_texts(v@)),
            forall|p: (Seq<char>, Seq<char>)| #[trigger]
                pair_texts(v@).contains(p) <==> before.contains(p) || (p.1 == Seq::<char>::empty()
                    && exists|k: int| 0 <= k < i && (#[trigger] stats@[k]).name@ == p.0),
        decreases stats@.len() - i,
    {
        let ghost mid = pair_texts(v@);
        proof {
            reveal_strlit("");
            assert(""@ =~= Seq::<char>::empty());
        }
        insert_pair(v, stats[i].name, "");
        proof {
            assert forall|p: (Seq<char>, Seq<char>)| #[trigger]
                pair_texts(v@).contains(p) <==> before.contains(p) || (p.1 == Seq::<char>::empty()
                    && exists|k: int| 0 <= k < i + 1 && (#[trigger] stats@[k]).name@ == p.0) by {
                assert(mid.contains(p) <==> before.contains(p) || (p.1 == Seq::<char>::empty()
                    && exists|k: int| 0 <= k < i && (#[trigger] stats@[k]).name@ == p.0));
                if p == (stats@[i as int].name@, Seq::<char>::empty()) {
                    assert(stats@[i as int].name@ == p.0);
                }
            }
        }
        i = i + 1;
    }
    proof {
        assert forall|p: (Seq<char>, Seq<char>)| #[trigger]
            pair_texts(v@).contains(p) <==> before.contains(p) || (p.1 == Seq::<char>::empty()
                && stat_named(stats@, p.0) is Some) by {
            lemma_stat_named(stats@, p.0);
        }
    }
}

fn ratio_in(s: Option<&EventTypeStat>) -> (r: Ratio)
    ensures
        r == match s {
            Some(x) => x.avg_time,
            None => zero(),
        },
{
    match s {
        Some(x) => x.avg_time,
        None => Ratio { num: 0, den: 1 },
    }
}

fn build_row(a: &Vec<EventTypeStat>, b: &Vec<EventTypeStat>, name: &str) -> (r: CompareRow)
    requires
        stats_fit(a@),
        stats_fit(b@),
    ensures
        row_of(a@, b@, name@, r),
        r.diff.size.den > 0,
{
    let sa = find_stat(a, name);
    let sb = find_stat(b, name);
    let avg_a = ratio_in(sa);
    let avg_b = ratio_in(sb);
    CompareRow {
        event_name: name.to_owned(),
        count_a: match sa {
            Some(x) => x.count,
            None => 0,
        },
        count_b: match sb {
            Some(x) => x.count,
            None => 0,
        },
        avg_a,
        avg_b,
        diff: pct_diff(avg_a, avg_b),
    }
}

/// Compare the averages by event name.
pub fn compare_rows(a: &Vec<EventTypeStat>, b: &Vec<EventTypeStat>) -> (rows: Vec<CompareRow>)
    requires
        stats_fit(a@),
        stats_fit(b@),
    ensures
        rows_of(a@, b@, rows@),
{
    let mut pairs: Vec<(String, String)> = Vec::new();
    assert(pair_texts(pairs@) =~= Seq::<(Seq<char>, Seq<char>)>::empty());
    add_names(&mut pairs, a);
    add_names(&mut pairs, b);
    let ghost texts = pair_texts(pairs@);
    let ghost names = texts.map_values(|p: (Seq<char>, Seq<char>)| p.0);
    proof {
        lemma_pairs_are_names(a@, b@, texts, names);
    }
    let mut keys: Vec<Frac> = Vec::new();
    let mut i: usize = 0;
    while i < pairs.len()
        invariant
            i <= pairs@.len(),
            stats_fit(a@),
            stats_fit(b@),
            texts == pair_texts(pairs@),
            names == texts.map_values(|p: (Seq<char>, Seq<char>)| p.0),
            keys@.len() == i,
            proper(keys@),
            forall|k: int| 0 <= k < i ==> #[trigger] keys@[k] == name_sizes(a@, b@, names)[k],
        decreases pairs@.len() - i,
    {
        let row = build_row(a, b, pairs[i].0.as_str());
        assert(names[i as int] == pairs@[i as int].0@);
        keys.push(row.diff.size);
        i = i + 1;
    }
    assert(keys@ =~= name_sizes(a@, b@, names));
    let top = top_fracs(&keys, pairs.len());
    let mut rows: Vec<CompareRow> = Vec::new();
    let mut k: usize = 0;
    while k < top.len()
        invariant
            k <= top@.len(),
            stats_fit(a@),
            stats_fit(b@),
            texts == pair_texts(pairs@),
            names == texts.map_values(|p: (Seq<char>, Seq<char>)| p.0),
            names.len() == pairs@.len(),
            keys@.len() == names.len(),
            largest_first(keys@, names.len(), top@),
            rows@.len() == k,
            forall|j: int|
                0 <= j < k ==> row_of(a@, b@, names[top@[j] as int], #[trigger] rows@[j]),
        decreases top@.len() - k,
    {
        let slot = top[k];
        assert(names[slot as int] == pairs@[slot as int].0@);
        rows.push(build_row(a, b, pairs[slot].0.as_str()));
        k = k + 1;
    }
    assert(rows_of(a@, b@, rows@)) by {
        assert(sorted_names(a@, b@, names));
        assert(largest_first(name_sizes(a@, b@, names), names.len(), top@));
    }
    rows
}

proof fn lemma_pairs_are_names(
    a: Seq<EventTypeStat>,
    b: Seq<EventTypeStat>,
    texts: Seq<(Seq<char>, Seq<char>)>,
    names: Seq<Seq<char>>,
)
    requires
        pairs_sorted(texts),
        names == texts.map_values(|p: (Seq<char>, Seq<char>)| p.0),
        forall|p: (Seq<char>, Seq<char>)| #[trigger]
            texts.contains(p) <==> p.1 == Seq::<char>::empty() && names_either(a, b, p.0),
    ensures
        sorted_names(a, b, names),
{
    assert forall|i: int| 0 <= i < names.len() implies names_either(a, b, #[trigger] names[i]) by {
        assert(texts.contains(texts[i]));
    }
    assert forall|i: int, j: int| 0 <= i < j < names.len() implies text_less(
        #[trigger] names[i],
        #[trigger] names[j],
    ) by {
        assert(texts.contains(texts[i]));
        assert(texts.contains(texts[j]));
        assert(pair_less(texts[i], texts[j]));
    }
    assert forall|name: Seq<char>| #[trigger] names_either(a, b, name) implies names.contains(name) by {
        let p = (name, Seq::<char>::empty());
        assert(texts.contains(p));
        let w = choose|w: int| 0 <= w < texts.len() && texts[w] == p;
        assert(names[w] == name);
    }
}

/// The first function with the given name and address.
pub open spec fn func_named(funcs: Seq<FunctionTime>, name: Seq<char>, url: Seq<char>) -> Option<
    FunctionTime,
>
    decreases funcs.len(),
{
    if funcs.len() == 0 {
        None
    } else if func_named(funcs.drop_last(), name, url) is Some {
        func_named(funcs.drop_last(), name, url)
    } else if funcs.last().function_name@ == name && funcs.last().url@ == url {
        Some(funcs.last())
    } else {
        None
    }
}

pub open spec fn time_of(f: Option<FunctionTime>) -> int {
    match f {
        Some(x) => x.self_time as int,
        None => 0,
    }
}

/// A time as a share of all sample time; none where there is no such time.
pub open spec fn share(t: int, all: int) -> Ratio {
    if all > 0 {
        Ratio { num: t as i128, den: all as i128 }
    } else {
        zero()
    }
}

/// How far apart two shares are.
pub open spec fn share_gap(a: Ratio, b: Ratio) -> Frac {
    Frac {
        num: magnitude(b.num * a.den - a.num * b.den) as u128,
        den: (a.den * b.den) as u128,
    }
}

/// The row of a function.
pub open spec fn func_row(a: CpuProfileResult, b: CpuProfileResult, key: (Seq<char>, Seq<char>), r: CpuFunctionDiff) -> bool {
    let fa = func_named(a.functions@, key.0, key.1);
    let fb = func_named(b.functions@, key.0, key.1);
    &&& r.function_name@ == key.0
    &&& r.url@ == key.1
    &&& r.source_type == match fa {
        Some(f) => f.source_type,
        None => match fb {
            Some(f) => f.source_type,
            None => SourceType::Native,
        },
    }
    &&& r.time_a == time_of(fa)
    &&& r.time_b == time_of(fb)
    &&& r.share_a == share(time_of(fa), a.total_sample_time as int)
    &&& r.share_b == share(time_of(fb), b.total_sample_time as int)
    &&& r.diff == diff_of(
        Ratio { num: r.time_a, den: 1 },
        Ratio { num: r.time_b, den: 1 },
    )
}

/// A function that took time in either trace.
pub open spec fn took_time(a: CpuProfileResult, b: CpuProfileResult, key: (Seq<char>, Seq<char>)) -> bool {
    time_of(func_named(a.functions@, key.0, key.1)) > 0 || time_of(
        func_named(b.functions@, key.0, key.1),
    ) > 0
}

pub open spec fn gap_of(a: CpuProfileResult, b: CpuProfileResult, key: (Seq<char>, Seq<char>)) -> Frac {
    share_gap(
        share(time_of(func_named(a.functions@, key.0, key.1)), a.total_sample_time as int),
        share(time_of(func_named(b.functions@, key.0, key.1)), b.total_sample_time as int),
    )
}

pub open spec fn key_gaps(a: CpuProfileResult, b: CpuProfileResult, keys: Seq<(Seq<char>, Seq<char>)>) -> Seq<Frac> {
    keys.map_values(|key: (Seq<char>, Seq<char>)| gap_of(a, b, key))
}

/// How many functions are compared.
pub const TOP_FUNCTIONS: usize = 30;

/// `keys` holds the functions that took time, each once, in their order.
pub open spec fn timed_functions(a: CpuProfileResult, b: CpuProfileResult, keys: Seq<(Seq<char>, Seq<char>)>) -> bool {
    &&& pairs_sorted(keys)
    &&& forall|key: (Seq<char>, Seq<char>)| #[trigger] keys.contains(key) <==> took_time(a, b, key)
}

/// The functions whose shares are furthest apart, the furthest first.
pub open spec fn func_rows(a: CpuProfileResult, b: CpuProfileResult, rows: Seq<CpuFunctionDiff>) -> bool {
    exists|keys: Seq<(Seq<char>, Seq<char>)>, top: Seq<usize>|
        {
            &&& #[trigger] timed_functions(a, b, keys)
            &&& #[trigger] largest_first(key_gaps(a, b, keys), TOP_FUNCTIONS as nat, top)
            &&& rows.len() == top.len()
            &&& forall|i: int|
                0 <= i < rows.len() ==> func_row(a, b, keys[top[i] as int], #[trigger] rows[i])
        }
}

/// The times of a profile are small enough to be compared exactly.
pub open spec fn times_fit(c: CpuProfileResult) -> bool {
    &&& 0 <= c.total_sample_time <= i64::MAX
    &&& forall|i: int|
        0 <= i < c.functions@.len() ==> 0 <= (#[trigger] c.functions@[i]).self_time <= i64::MAX
}

proof fn lemma_func_listed(funcs: Seq<FunctionTime>, name: Seq<char>, url: Seq<char>)
    ensures
        func_named(funcs, name, url) matches Some(f) ==> exists|i: int|
            0 <= i < funcs.len() && #[trigger] funcs[i] == f,
    decreases funcs.len(),
{
    if funcs.len() > 0 {
        lemma_func_listed(funcs.drop_last(), name, url);
        if let Some(f) = func_named(funcs, name, url) {
            if f == funcs.last() {
                assert(funcs[funcs.len() - 1] == f);
            } else {
                let i = choose|i: int|
                    0 <= i < funcs.drop_last().len() && #[trigger] funcs.drop_last()[i] == f;
                assert(funcs[i] == f);
            }
        }
    }
}

/// A share that can be compared exactly.
pub open spec fn share_fits(r: Ratio) -> bool {
    0 <= r.num <= i64::MAX && 1 <= r.den <= i64::MAX
}

/// The shares in the rows of two such profiles can be compared exactly.
pub proof fn lemma_shares_fit(a: CpuProfileResult, b: CpuProfileResult, rows: Seq<CpuFunctionDiff>, k: int)
    requires
        times_fit(a),
        times_fit(b),
        func_rows(a, b, rows),
        0 <= k < rows.len(),
    ensures
        share_fits(rows[k].share_a),
        share_fits(rows[k].share_b),
{
    let (keys, top) = choose|keys: Seq<(Seq<char>, Seq<char>)>, top: Seq<usize>|
        {
            &&& #[trigger] timed_functions(a, b, keys)
            &&& #[trigger] largest_first(key_gaps(a, b, keys), TOP_FUNCTIONS as nat, top)
            &&& rows.len() == top.len()
            &&& forall|i: int|
                0 <= i < rows.len() ==> func_row(a, b, keys[top[i] as int], #[trigger] rows[i])
        };
    let key = keys[top[k] as int];
    assert(func_row(a, b, key, rows[k]));
    lemma_func_listed(a.functions@, key.0, key.1);
    lemma_func_listed(b.functions@, key.0, key.1);
}

fn find_func<'a>(funcs: &'a Vec<FunctionTime>, name: &str, url: &str) -> (r: Option<&'a FunctionTime>)
    ensures
        match r {
            Some(f) => func_named(funcs@, name@, url@) == Some(*f) && exists|i: int|
                0 <= i < funcs@.len() && #[trigger] funcs@[i] == *f,
            None => func_named(funcs@, name@, url@) is None,
        },
{
    let mut found: Option<usize> = None;
    let mut i: usize = 0;
    assert(funcs@.take(0) =~= Seq::<FunctionTime>::empty());
    while i < funcs.len()
        invariant
            i <= funcs@.len(),
            match found {
                Some(k) => k < i && func_named(funcs@.take(i as int), name@, url@) == Some(
                    funcs@[k as int],
                ),
                None => func_named(funcs@.take(i as int), name@, url@) is None,
            },
        decreases funcs@.len() - i,
    {
        assert(funcs@.take(i + 1).drop_last() =~= funcs@.take(i as int));
        if found.is_none() && same(funcs[i].function_name.as_str(), name) && same(
            funcs[i].url.as_str(),
            url,
        ) {
            found = Some(i);
        }
        i = i + 1;
    }
    assert(funcs@.take(funcs@.len() as int) =~= funcs@);
    match found {
        Some(k) => {
            assert(funcs@[k as int] == funcs[k as int]);
            Some(&funcs[k])
        },
        None => None,
    }
}

fn make_share(t: i128, all: i128) -> (r: Ratio)
    ensures
        r == share(t as int, all as int),
{
    if all > 0 {
        Ratio { num: t, den: all }
    } else {
        Ratio { num: 0, den: 1 }
    }
}

fn make_gap(a: Ratio, b: Ratio) -> (r: Frac)
    requires
        0 <= a.num <= i64::MAX,
        0 <= b.num <= i64::MAX,
        1 <= a.den <= i64::MAX,
        1 <= b.den <= i64::MAX,
    ensures
        r == share_gap(a, b),
        r.den > 0,
{
    proof {
        let (an, ad, bn, bd) = (a.num as int, a.den as int, b.num as int, b.den as int);
        let m = i64::MAX as int;
        assert(0 <= bn * ad <= m * m) by (nonlinear_arith)
            requires
                0 <= bn <= m,
                1 <= ad <= m,
        ;
        assert(0 <= an * bd <= m * m) by (nonlinear_arith)
            requires
                0 <= an <= m,
                1 <= bd <= m,
        ;
        assert(1 <= ad * bd <= m * m) by (nonlinear_arith)
            requires
                1 <= ad <= m,
                1 <= bd <= m,
        ;
    }
    let d: i128 = b.num * a.den - a.num * b.den;
    Frac { num: abs(d), den: (a.den * b.den) as u128 }
}

fn build_func(a: &CpuProfileResult, b: &CpuProfileResult, name: &str, url: &str) -> (r: CpuFunctionDiff)
    requires
        times_fit(*a),
        times_fit(*b),
    ensures
        func_row(*a, *b, (name@, url@), r),
        0 <= r.time_a <= i64::MAX,
        0 <= r.time_b <= i64::MAX,
        0 <= r.share_a.num <= i64::MAX,
        0 <= r.share_b.num <= i64::MAX,
        1 <= r.share_a.den <= i64::MAX,
        1 <= r.share_b.den <= i64::MAX,
{
    let fa = find_func(&a.functions, name, url);
    let fb = find_func(&b.functions, name, url);
    let time_a: i128 = match fa {
        Some(f) => f.self_time,
        None => 0,
    };
    let time_b: i128 = match fb {
        Some(f) => f.self_time,
        None => 0,
    };
    let source_type = match fa {
        Some(f) => f.source_type,
        None => match fb {
            Some(f) => f.source_type,
            None => SourceType::Native,
        },
    };
    CpuFunctionDiff {
        function_name: name.to_owned(),
        url: url.to_owned(),
        source_type,
        time_a,
        time_b,
        share_a: make_share(time_a, a.total_sample_time),
        share_b: make_share(time_b, b.total_sample_time),
        diff: pct_diff(Ratio { num: time_a, den: 1 }, Ratio { num: time_b, den: 1 }),
    }
}

proof fn lemma_func_named(funcs: Seq<FunctionTime>, name: Seq<char>, url: Seq<char>)
    ensures
        func_named(funcs, name, url) is Some ==> exists|i: int|
            0 <= i < funcs.len() && (#[trigger] funcs[i]).function_name@ == name && funcs[i].url@ == url,
    decreases funcs.len(),
{
    if funcs.len() > 0 {
        let t = funcs.drop_last();
        lemma_func_named(t, name, url);
        if func_named(t, name, url) is Some {
            let i = choose|i: int|
                0 <= i < t.len() && (#[trigger] t[i]).function_name@ == name && t[i].url@ == url;
            assert(funcs[i].function_name@ == name && funcs[i].url@ == url);
        } else if func_named(funcs, name, url) is Some {
            assert(funcs[funcs.len() - 1].function_name@ == name);
        }
    }
}

/// Take in the functions of a list that took time in either trace.
fn add_funcs(
    v: &mut Vec<(String, String)>,
    funcs: &Vec<FunctionTime>,
    a: &CpuProfileResult,
    b: &CpuProfileResult,
)
    requires
        times_fit(*a),
        times_fit(*b),
        pairs_sorted(pair_texts(old(v)@)),
    ensures
        pairs_sorted(pair_texts(final(v)@)),
        forall|key: (Seq<char>, Seq<char>)| #[trigger]
            pair_texts(final(v)@).contains(key) <==> pair_texts(old(v)@).contains(key) || (took_time(
                *a,
                *b,
                key,
            ) && exists|k: int|
                0 <= k < funcs@.len() && (#[trigger] funcs@[k]).function_name@ == key.0
                    && funcs@[k].url@ == key.1),
{
    let ghost before = pair_texts(v@);
    let mut i: usize = 0;
    while i < funcs.len()
        invariant
            i <= funcs@.len(),
            times_fit(*a),
            times_fit(*b),
            pairs_sorted(pair_texts(v@)),
            forall|key: (Seq<char>, Seq<char>)| #[trigger]
                pair_texts(v@).contains(key) <==> before.contains(key) || (took_time(*a, *b, key)
                    && exists|k: int|
                    0 <= k < i && (#[trigger] funcs@[k]).function_name@ == key.0 && funcs@[k].url@
                        == key.1),
        decreases funcs@.len() - i,
    {
        let name = funcs[i].function_name.as_str();
        let url = funcs[i].url.as_str();
        let ghost mid = pair_texts(v@);
        let ghost new = (name@, url@);
        let row = build_func(a, b, name, url);
        let timed = row.time_a > 0 || row.time_b > 0;
        assert(timed == took_time(*a, *b, new));
        if timed {
            insert_pair(v, name, url);
        }
        proof {
            assert forall|key: (Seq<char>, Seq<char>)| #[trigger]
                pair_texts(v@).contains(key) <==> before.contains(key) || (took_time(*a, *b, key)
                    && exists|k: int|
                    0 <= k < i + 1 && (#[trigger] funcs@[k]).function_name@ == key.0
                        && funcs@[k].url@ == key.1) by {
                assert(mid.contains(key) <==> before.contains(key) || (took_time(*a, *b, key)
                    && exists|k: int|
                    0 <= k < i && (#[trigger] funcs@[k]).function_name@ == key.0 && funcs@[k].url@
                        == key.1));
                if key == new {
                    assert(funcs@[i as int].function_name@ == key.0);
                }
            }
        }
        i = i + 1;
    }
}

/// Compare the functions of two profiles.
pub fn compare_functions(a: &CpuProfileResult, b: &CpuProfileResult) -> (rows: Vec<CpuFunctionDiff>)
    requires
        times_fit(*a),
        times_fit(*b),
    ensures
        func_rows(*a, *b, rows@),
{
    let mut pairs: Vec<(String, String)> = Vec::new();
    assert(pair_texts(pairs@) =~= Seq::<(Seq<char>, Seq<char>)>::empty());
    add_funcs(&mut pairs, &a.functions, a, b);
    add_funcs(&mut pairs, &b.functions, a, b);
    let ghost keys = pair_texts(pairs@);
    proof {
        assert forall|key: (Seq<char>, Seq<char>)| #[trigger] keys.contains(key) <==> took_time(
            *a,
            *b,
            key,
        ) by {
            lemma_func_named(a.functions@, key.0, key.1);
            lemma_func_named(b.functions@, key.0, key.1);
        }
        assert(timed_functions(*a, *b, keys));
    }
    let mut gaps: Vec<Frac> = Vec::new();
    let mut i: usize = 0;
    while i < pairs.len()
        invariant
            i <= pairs@.len(),
            times_fit(*a),
            times_fit(*b),
            keys == pair_texts(pairs@),
            gaps@.len() == i,
            proper(gaps@),
            forall|k: int| 0 <= k < i ==> #[trigger] gaps@[k] == key_gaps(*a, *b, keys)[k],
        decreases pairs@.len() - i,
    {
        let row = build_func(a, b, pairs[i].0.as_str(), pairs[i].1.as_str());
        assert(keys[i as int] == (pairs@[i as int].0@, pairs@[i as int].1@));
        gaps.push(make_gap(row.share_a, row.share_b));
        i = i + 1;
    }
    assert(gaps@ =~= key_gaps(*a, *b, keys));
    let top = top_fracs(&gaps, TOP_FUNCTIONS);
    let mut rows: Vec<CpuFunctionDiff> = Vec::new();
    let mut k: usize = 0;
    while k < top.len()
        invariant
            k <= top@.len(),
            times_fit(*a),
            times_fit(*b),
            keys == pair_texts(pairs@),
            gaps@.len() == keys.len(),
            largest_first(gaps@, TOP_FUNCTIONS as nat, top@),
            rows@.len() == k,
            forall|j: int|
                0 <= j < k ==> func_row(*a, *b, keys[top@[j] as int], #[trigger] rows@[j]),
        decreases top@.len() - k,
    {
        let slot = top[k];
        assert(keys[slot as int] == (pairs@[slot as int].0@, pairs@[slot as int].1@));
        rows.push(build_func(a, b, pairs[slot].0.as_str(), pairs[slot].1.as_str()));
        k = k + 1;
    }
    rows
}

/// The finding that a difference over the limit gives.
pub open spec fn change(
    category: Seq<char>,
    d: Diff,
    limit: int,
    message: Seq<PieceView>,
    detail: Seq<PieceView>,
) -> Seq<FindingView> {
    if over(d, limit) {
        seq![
            FindingView {
                severity: if d.neg {
                    FindingSeverity::Improved
                } else {
                    FindingSeverity::Regressed
                },
                category,
                message,
                detail,
            },
        ]
    } else {
        Seq::empty()
    }
}

pub open spec fn finding_views(f: Seq<Finding>) -> Seq<FindingView> {
    f.map_values(|x: Finding| x@)
}

fn push_change(
    out: &mut Vec<Finding>,
    category: &'static str,
    d: Diff,
    limit: u128,
    message: Doc,
    detail: Doc,
)
    requires
        d.size.den > 0,
    ensures
        finding_views(final(out)@) == finding_views(old(out)@) + change(
            category@,
            d,
            limit as int,
            doc_view(message@),
            doc_view(detail@),
        ),
{
    let ghost before = out@;
    if is_over(d, limit) {
        let severity = if d.neg {
            FindingSeverity::Improved
        } else {
            FindingSeverity::Regressed
        };
        let f = Finding { severity, category, message, detail };
        let ghost v = f@;
        out.push(f);
        assert(finding_views(out@) =~= finding_views(before) + seq![v]);
    } else {
        assert(finding_views(out@) =~= finding_views(before) + Seq::<FindingView>::empty());
    }
}

pub open spec fn whole(n: int) -> Ratio {
    Ratio { num: n as i128, den: 1 }
}

pub open spec fn text(s: Seq<char>) -> PieceView {
    PieceView::Text(s)
}

/// A percentage and what it is of.
pub open spec fn pct_of(d: Diff, what: Seq<char>) -> Seq<PieceView> {
    seq![PieceView::Number(pct_num(d, 1)), text(what)]
}

/// The finding on long tasks.
pub open spec fn long_task_change(a: SummaryResult, b: SummaryResult) -> Seq<FindingView> {
    let d = diff_of(whole(a.long_task_count as int), whole(b.long_task_count as int));
    change(
        "Long Tasks"@,
        d,
        10,
        seq![
            text(decimal(a.long_task_count as nat)),
            text(" -> "@),
            text(decimal(b.long_task_count as nat)),
            text(" ("@),
            PieceView::Number(pct_num(d, 0)),
            text("%)"@),
        ],
        seq![
            text(
                if d.neg {
                    "Fewer long tasks blocking the main thread"@
                } else {
                    "More long tasks blocking the main thread"@
                },
            ),
        ],
    )
}

/// The finding on one average of the scroll frames.
pub open spec fn scroll_change(category: Seq<char>, a: Ratio, b: Ratio, limit: int, what: Seq<char>, detail: Seq<PieceView>) -> Seq<FindingView> {
    change(category, diff_of(a, b), limit, pct_of(diff_of(a, b), what), detail)
}

pub open spec fn bottlenecks(a: FrameAverages, b: FrameAverages) -> Seq<PieceView> {
    seq![
        text("Bottleneck: "@),
        text(bottleneck_label(average_costs(a))),
        text(" -> "@),
        text(bottleneck_label(average_costs(b))),
    ]
}

/// The findings on the scroll frames, where both traces have some.
pub open spec fn scroll_changes(a: ScrollFrameResult, b: ScrollFrameResult) -> Seq<FindingView> {
    if a.tasks@.len() == 0 || b.tasks@.len() == 0 {
        Seq::empty()
    } else {
        scroll_change(
            "Scroll Duration"@,
            a.avg.dur,
            b.avg.dur,
            5,
            "% avg scroll task time"@,
            bottlenecks(a.avg, b.avg),
        ) + plain_change("JS in Scroll"@, a.avg.js, b.avg.js, "% JS execution time"@)
            + plain_change("Style Recalc"@, a.avg.ult, b.avg.ult, "% UpdateLayoutTree time"@)
            + plain_change("Layout"@, a.avg.layout, b.avg.layout, "% layout time"@)
            + plain_change("Paint"@, a.avg.paint, b.avg.paint, "% paint time"@)
            + plain_change("HitTest"@, a.avg.hit_test, b.avg.hit_test, "% hit test time"@)
            + plain_change("Composite"@, a.avg.composite, b.avg.composite, "% composite time"@)
    }
}

/// The finding on the average of one category of the scroll frames.
pub open spec fn plain_change(category: Seq<char>, a: Ratio, b: Ratio, what: Seq<char>) -> Seq<FindingView> {
    scroll_change(category, a, b, 10, what, Seq::empty())
}

pub open spec fn busy_change(a: SummaryResult, b: SummaryResult) -> Seq<FindingView> {
    let d = diff_of(whole(a.main_thread_busy as int), whole(b.main_thread_busy as int));
    change("Main Thread"@, d, 10, pct_of(d, "% total busy time"@), seq![])
}

/// Two averages and their difference.
pub open spec fn average_pieces(lead: Seq<char>, a: Ratio, b: Ratio) -> Seq<PieceView> {
    seq![
        text(lead),
        PieceView::Number(ratio_num(a.num as int, a.den as int, 1, 0, false)),
        text(" -> "@),
        PieceView::Number(ratio_num(b.num as int, b.den as int, 1, 0, false)),
        text(" ("@),
        PieceView::Number(pct_num(diff_of(a, b), 1)),
        text("%)"@),
    ]
}

pub open spec fn dirty_change(a: LayoutDirtyResult, b: LayoutDirtyResult) -> Seq<FindingView> {
    change(
        "Layout Dirty"@,
        diff_of(a.avg_dirty, b.avg_dirty),
        15,
        average_pieces("Avg dirty "@, a.avg_dirty, b.avg_dirty),
        seq![],
    )
}

pub open spec fn style_change(a: StyleRecalcResult, b: StyleRecalcResult) -> Seq<FindingView> {
    if a.total_count > 0 && b.total_count > 0 {
        change(
            "Style Elements"@,
            diff_of(a.avg_elements, b.avg_elements),
            10,
            average_pieces("Avg "@, a.avg_elements, b.avg_elements),
            seq![
                text("Max "@),
                text(decimal(a.max_elements as nat)),
                text(" -> "@),
                text(decimal(b.max_elements as nat)),
            ],
        )
    } else {
        Seq::empty()
    }
}

/// The findings of one severity, in their order.
pub open spec fn of_severity(f: Seq<FindingView>, s: FindingSeverity) -> Seq<FindingView>
    decreases f.len(),
{
    if f.len() == 0 {
        Seq::empty()
    } else {
        let before = of_severity(f.drop_last(), s);
        if f.last().severity == s {
            before.push(f.last())
        } else {
            before
        }
    }
}

/// Regressions first, then improvements, then the rest.
pub open spec fn by_severity(f: Seq<FindingView>) -> Seq<FindingView> {
    of_severity(f, FindingSeverity::Regressed) + of_severity(f, FindingSeverity::Improved)
        + of_severity(f, FindingSeverity::Neutral)
}

/// Every average of the scroll frames can be compared.
pub open spec fn frames_fit(s: ScrollFrameResult) -> bool {
    &&& ratio_fits(s.avg.dur)
    &&& ratio_fits(s.avg.js)
    &&& ratio_fits(s.avg.ult)
    &&& ratio_fits(s.avg.paint)
    &&& ratio_fits(s.avg.composite)
    &&& ratio_fits(s.avg.hit_test)
    &&& ratio_fits(s.avg.layout)
}

/// The figures of a summary can be compared.
pub open spec fn summary_fits(s: SummaryResult) -> bool {
    stats_fit(s.event_stats@) && ratio_fits(whole(s.main_thread_busy as int))
}

pub fn make_whole(n: i128) -> (r: Ratio)
    ensures
        r == whole(n as int),
{
    Ratio { num: n, den: 1 }
}

fn pct_doc(d: Diff, what: &str) -> (r: Doc)
    ensures
        doc_view(r@) == pct_of(d, what@),
{
    let mut m: Doc = Vec::new();
    put_num(&mut m, make_pct(d, 1));
    put(&mut m, what);
    assert(doc_view(m@) =~= pct_of(d, what@));
    m
}

fn push_scroll(out: &mut Vec<Finding>, category: &'static str, a: Ratio, b: Ratio, limit: u128, what: &str, detail: Doc)
    requires
        ratio_fits(a),
        ratio_fits(b),
    ensures
        finding_views(final(out)@) == finding_views(old(out)@) + scroll_change(
            category@,
            a,
            b,
            limit as int,
            what@,
            doc_view(detail@),
        ),
{
    let d = pct_diff(a, b);
    push_change(out, category, d, limit, pct_doc(d, what), detail);
}

fn average_doc(lead: &str, a: Ratio, b: Ratio, d: Diff) -> (r: Doc)
    requires
        d == diff_of(a, b),
    ensures
        doc_view(r@) == average_pieces(lead@, a, b),
{
    let mut m: Doc = Vec::new();
    put(&mut m, lead);
    put_num(&mut m, make_ratio(a.num, a.den, 1, 0, false));
    put(&mut m, " -> ");
    put_num(&mut m, make_ratio(b.num, b.den, 1, 0, false));
    put(&mut m, " (");
    put_num(&mut m, make_pct(d, 1));
    put(&mut m, "%)");
    assert(doc_view(m@) =~= average_pieces(lead@, a, b));
    m
}

#[verifier::rlimit(30)]
fn long_task_findings(out: &mut Vec<Finding>, a: &SummaryResult, b: &SummaryResult)
    ensures
        finding_views(final(out)@) == finding_views(old(out)@) + long_task_change(*a, *b),
{
    let d = pct_diff(make_whole(a.long_task_count as i128), make_whole(b.long_task_count as i128));
    let mut m: Doc = Vec::new();
    put_u64(&mut m, a.long_task_count as u64);
    put(&mut m, " -> ");
    put_u64(&mut m, b.long_task_count as u64);
    put(&mut m, " (");
    put_num(&mut m, make_pct(d, 0));
    put(&mut m, "%)");
    let mut t: Doc = Vec::new();
    if d.neg {
        put(&mut t, "Fewer long tasks blocking the main thread");
    } else {
        put(&mut t, "More long tasks blocking the main thread");
    }
    assert(doc_view(m@) =~= seq![
        text(decimal(a.long_task_count as nat)),
        text(" -> "@),
        text(decimal(b.long_task_count as nat)),
        text(" ("@),
        PieceView::Number(pct_num(d, 0)),
        text("%)"@),
    ]);
    assert(doc_view(t@) =~= seq![
        text(
            if d.neg {
                "Fewer long tasks blocking the main thread"@
            } else {
                "More long tasks blocking the main thread"@
            },
        ),
    ]);
    push_change(out, "Long Tasks", d, 10, m, t);
}

fn scroll_findings(out: &mut Vec<Finding>, a: &ScrollFrameResult, b: &ScrollFrameResult)
    requires
        frames_fit(*a),
        frames_fit(*b),
    ensures
        finding_views(final(out)@) == finding_views(old(out)@) + scroll_changes(*a, *b),
{
    let ghost before = finding_views(out@);
    if a.tasks.len() == 0 || b.tasks.len() == 0 {
        assert(before + Seq::<FindingView>::empty() =~= before);
        return ;
    }
    let mut t: Doc = Vec::new();
    put(&mut t, "Bottleneck: ");
    put(&mut t, a.avg.bottleneck());
    put(&mut t, " -> ");
    put(&mut t, b.avg.bottleneck());
    assert(doc_view(t@) =~= bottlenecks(a.avg, b.avg));
    push_scroll(out, "Scroll Duration", a.avg.dur, b.avg.dur, 5, "% avg scroll task time", t);
    push_plain(out, "JS in Scroll", a.avg.js, b.avg.js, "% JS execution time");
    push_plain(out, "Style Recalc", a.avg.ult, b.avg.ult, "% UpdateLayoutTree time");
    push_plain(out, "Layout", a.avg.layout, b.avg.layout, "% layout time");
    push_plain(out, "Paint", a.avg.paint, b.avg.paint, "% paint time");
    push_plain(out, "HitTest", a.avg.hit_test, b.avg.hit_test, "% hit test time");
    push_plain(out, "Composite", a.avg.composite, b.avg.composite, "% composite time");
    proof {
        let c1 = scroll_change(
            "Scroll Duration"@,
            a.avg.dur,
            b.avg.dur,
            5,
            "% avg scroll task time"@,
            bottlenecks(a.avg, b.avg),
        );
        let c2 = plain_change("JS in Scroll"@, a.avg.js, b.avg.js, "% JS execution time"@);
        let c3 = plain_change("Style Recalc"@, a.avg.ult, b.avg.ult, "% UpdateLayoutTree time"@);
        let c4 = plain_change("Layout"@, a.avg.layout, b.avg.layout, "% layout time"@);
        let c5 = plain_change("Paint"@, a.avg.paint, b.avg.paint, "% paint time"@);
        let c6 = plain_change("HitTest"@, a.avg.hit_test, b.avg.hit_test, "% hit test time"@);
        let c7 = plain_change("Composite"@, a.avg.composite, b.avg.composite, "% composite time"@);
        lemma_join(before, c1, c2, c3, c4, c5, c6, c7);
    }
}

proof fn lemma_join(
    b: Seq<FindingView>,
    c1: Seq<FindingView>,
    c2: Seq<FindingView>,
    c3: Seq<FindingView>,
    c4: Seq<FindingView>,
    c5: Seq<FindingView>,
    c6: Seq<FindingView>,
    c7: Seq<FindingView>,
)
    ensures
        b + c1 + c2 + c3 + c4 + c5 + c6 + c7 == b + (c1 + c2 + c3 + c4 + c5 + c6 + c7),
{
    assert(b + c1 + c2 =~= b + (c1 + c2));
    assert(b + (c1 + c2) + c3 =~= b + (c1 + c2 + c3));
    assert(b + (c1 + c2 + c3) + c4 =~= b + (c1 + c2 + c3 + c4));
    assert(b + (c1 + c2 + c3 + c4) + c5 =~= b + (c1 + c2 + c3 + c4 + c5));
    assert(b + (c1 + c2 + c3 + c4 + c5) + c6 =~= b + (c1 + c2 + c3 + c4 + c5 + c6));
    assert(b + (c1 + c2 + c3 + c4 + c5 + c6) + c7 =~= b + (c1 + c2 + c3 + c4 + c5 + c6 + c7));
}

fn push_plain(out: &mut Vec<Finding>, category: &'static str, a: Ratio, b: Ratio, what: &str)
    requires
        ratio_fits(a),
        ratio_fits(b),
    ensures
        finding_views(final(out)@) == finding_views(old(out)@) + plain_change(
            category@,
            a,
            b,
            what@,
        ),
{
    let e: Doc = Vec::new();
    assert(doc_view(e@) =~= Seq::<PieceView>::empty());
    push_scroll(out, category, a, b, 10, what, e);
}

fn busy_findings(out: &mut Vec<Finding>, a: &SummaryResult, b: &SummaryResult)
    requires
        summary_fits(*a),
        summary_fits(*b),
    ensures
        finding_views(final(out)@) == finding_views(old(out)@) + busy_change(*a, *b),
{
    let d = pct_diff(make_whole(a.main_thread_busy), make_whole(b.main_thread_busy));
    let e: Doc = Vec::new();
    assert(doc_view(e@) =~= seq![]);
    push_change(out, "Main Thread", d, 10, pct_doc(d, "% total busy time"), e);
}

fn dirty_findings(out: &mut Vec<Finding>, a: &LayoutDirtyResult, b: &LayoutDirtyResult)
    requires
        ratio_fits(a.avg_dirty),
        ratio_fits(b.avg_dirty),
    ensures
        finding_views(final(out)@) == finding_views(old(out)@) + dirty_change(*a, *b),
{
    let d = pct_diff(a.avg_dirty, b.avg_dirty);
    let m = average_doc("Avg dirty ", a.avg_dirty, b.avg_dirty, d);
    let e: Doc = Vec::new();
    assert(doc_view(e@) =~= seq![]);
    push_change(out, "Layout Dirty", d, 15, m, e);
}

fn style_findings(out: &mut Vec<Finding>, a: &StyleRecalcResult, b: &StyleRecalcResult)
    requires
        ratio_fits(a.avg_elements),
        ratio_fits(b.avg_elements),
    ensures
        finding_views(final(out)@) == finding_views(old(out)@) + style_change(*a, *b),
{
    if a.total_count > 0 && b.total_count > 0 {
        let d = pct_diff(a.avg_elements, b.avg_elements);
        let m = average_doc("Avg ", a.avg_elements, b.avg_elements, d);
        let mut t: Doc = Vec::new();
        put(&mut t, "Max ");
        put_u64(&mut t, a.max_elements as u64);
        put(&mut t, " -> ");
        put_u64(&mut t, b.max_elements as u64);
        assert(doc_view(t@) =~= seq![
            text("Max "@),
            text(decimal(a.max_elements as nat)),
            text(" -> "@),
            text(decimal(b.max_elements as nat)),
        ]);
        push_change(out, "Style Elements", d, 10, m, t);
    } else {
        assert(finding_views(out@) + Seq::<FindingView>::empty() =~= finding_views(out@));
    }
}

/// Move the findings of one severity behind `out`.
fn split_severity(found: Vec<Finding>) -> (r: (Vec<Finding>, Vec<Finding>, Vec<Finding>))
    ensures
        finding_views(r.0@) == of_severity(finding_views(found@), FindingSeverity::Regressed),
        finding_views(r.1@) == of_severity(finding_views(found@), FindingSeverity::Improved),
        finding_views(r.2@) == of_severity(finding_views(found@), FindingSeverity::Neutral),
{
    let ghost all = finding_views(found@);
    let mut bad: Vec<Finding> = Vec::new();
    let mut good: Vec<Finding> = Vec::new();
    let mut rest: Vec<Finding> = Vec::new();
    assert(finding_views(bad@) =~= of_severity(all.take(0), FindingSeverity::Regressed));
    assert(finding_views(good@) =~= of_severity(all.take(0), FindingSeverity::Improved));
    assert(finding_views(rest@) =~= of_severity(all.take(0), FindingSeverity::Neutral));
    for f in it: found
        invariant
            it.seq() == found@,
            all == finding_views(found@),
            finding_views(bad@) == of_severity(all.take(it.index()), FindingSeverity::Regressed),
            finding_views(good@) == of_severity(all.take(it.index()), FindingSeverity::Improved),
            finding_views(rest@) == of_severity(all.take(it.index()), FindingSeverity::Neutral),
    {
        let ghost v = f@;
        proof {
            assert(all.take(it.index() + 1).drop_last() =~= all.take(it.index()));
            assert(all.take(it.index() + 1).last() == v);
        }
        match f.severity {
            FindingSeverity::Regressed => {
                let ghost before = bad@;
                bad.push(f);
                assert(finding_views(bad@) =~= finding_views(before).push(v));
            },
            FindingSeverity::Improved => {
                let ghost before = good@;
                good.push(f);
                assert(finding_views(good@) =~= finding_views(before).push(v));
            },
            FindingSeverity::Neutral => {
                let ghost before = rest@;
                rest.push(f);
                assert(finding_views(rest@) =~= finding_views(before).push(v));
            },
        }
    }
    assert(all.take(all.len() as int) =~= all);
    (bad, good, rest)
}

/// Sort findings: regressions first, then improvements.
fn sort_findings(found: Vec<Finding>) -> (r: Vec<Finding>)
    ensures
        finding_views(r@) == by_severity(finding_views(found@)),
{
    let ghost views = finding_views(found@);
    let (bad, good, rest) = split_severity(found);
    let mut out = bad;
    let mut good = good;
    let mut rest = rest;
    let ghost b = out@;
    let ghost g = good@;
    let ghost n = rest@;
    out.append(&mut good);
    out.append(&mut rest);
    assert(finding_views(out@) =~= finding_views(b) + finding_views(g) + finding_views(n));
    out
}

/// All findings, before they are sorted.
pub open spec fn all_changes(
    summary_a: SummaryResult,
    summary_b: SummaryResult,
    scroll_a: ScrollFrameResult,
    scroll_b: ScrollFrameResult,
    layout_a: LayoutDirtyResult,
    layout_b: LayoutDirtyResult,
    style_a: StyleRecalcResult,
    style_b: StyleRecalcResult,
) -> Seq<FindingView> {
    long_task_change(summary_a, summary_b) + scroll_changes(scroll_a, scroll_b) + busy_change(
        summary_a,
        summary_b,
    ) + dirty_change(layout_a, layout_b) + style_change(style_a, style_b)
}

/// Compare two traces.
pub fn analyze_compare<'a>(
    summary_a: &'a SummaryResult,
    summary_b: &'a SummaryResult,
    scroll_a: &ScrollFrameResult,
    scroll_b: &ScrollFrameResult,
    cpu_a: &CpuProfileResult,
    cpu_b: &CpuProfileResult,
    layout_a: &'a LayoutDirtyResult,
    layout_b: &'a LayoutDirtyResult,
    style_recalc_a: &'a StyleRecalcResult,
    style_recalc_b: &'a StyleRecalcResult,
) -> (r: CompareResult<'a>)
    requires
        summary_fits(*summary_a),
        summary_fits(*summary_b),
        frames_fit(*scroll_a),
        frames_fit(*scroll_b),
        times_fit(*cpu_a),
        times_fit(*cpu_b),
        ratio_fits(layout_a.avg_dirty),
        ratio_fits(layout_b.avg_dirty),
        ratio_fits(style_recalc_a.avg_elements),
        ratio_fits(style_recalc_b.avg_elements),
    ensures
        rows_of(summary_a.event_stats@, summary_b.event_stats@, r.rows@),
        holds_scroll(r, *scroll_a, *scroll_b),
        r.summary_a == summary_a && r.summary_b == summary_b,
        r.layout_a == layout_a && r.layout_b == layout_b,
        r.style_recalc_a == style_recalc_a && r.style_recalc_b == style_recalc_b,
        func_rows(*cpu_a, *cpu_b, r.cpu_diff@),
        finding_views(r.findings@) == by_severity(
            all_changes(
                *summary_a,
                *summary_b,
                *scroll_a,
                *scroll_b,
                *layout_a,
                *layout_b,
                *style_recalc_a,
                *style_recalc_b,
            ),
        ),
{
    let rows = compare_rows(&summary_a.event_stats, &summary_b.event_stats);
    let cpu_diff = compare_functions(cpu_a, cpu_b);
    let mut found: Vec<Finding> = Vec::new();
    assert(finding_views(found@) =~= Seq::<FindingView>::empty());
    long_task_findings(&mut found, summary_a, summary_b);
    scroll_findings(&mut found, scroll_a, scroll_b);
    busy_findings(&mut found, summary_a, summary_b);
    dirty_findings(&mut found, layout_a, layout_b);
    style_findings(&mut found, style_recalc_a, style_recalc_b);
    assert(finding_views(found@) =~= all_changes(
        *summary_a,
        *summary_b,
        *scroll_a,
        *scroll_b,
        *layout_a,
        *layout_b,
        *style_recalc_a,
        *style_recalc_b,
    ));
    CompareResult {
        rows,
        scroll_avg_a: scroll_avg(scroll_a),
        scroll_avg_b: scroll_avg(scroll_b),
        scroll_pct_a: scroll_a.percentiles,
        scroll_pct_b: scroll_b.percentiles,
        scroll_count_a: scroll_a.tasks.len(),
        scroll_count_b: scroll_b.tasks.len(),
        summary_a,
        summary_b,
        cpu_diff,
        layout_a,
        layout_b,
        style_recalc_a,
        style_recalc_b,
        findings: sort_findings(found),
    }
}

/// Whether the quotient can be compared.
fn ratio_is_small(r: Ratio) -> (b: bool)
    ensures
        b == ratio_fits(r),
{
    -NUM_BOUND <= r.num && r.num <= NUM_BOUND && 1 <= r.den && r.den <= u32::MAX as i128
}

/// Whether the figures of a summary can be compared.
pub fn check_summary(s: &SummaryResult) -> (r: bool)
    ensures
        r == summary_fits(*s),
{
    let mut i: usize = 0;
    while i < s.event_stats.len()
        invariant
            i <= s.event_stats@.len(),
            forall|k: int| 0 <= k < i ==> ratio_fits((#[trigger] s.event_stats@[k]).avg_time),
        decreases s.event_stats@.len() - i,
    {
        if !ratio_is_small(s.event_stats[i].avg_time) {
            assert(!ratio_fits(s.event_stats@[i as int].avg_time));
            return false;
        }
        i = i + 1;
    }
    ratio_is_small(make_whole(s.main_thread_busy))
}

/// Whether the averages of the scroll frames can be compared.
pub fn check_frames(s: &ScrollFrameResult) -> (r: bool)
    ensures
        r == frames_fit(*s),
{
    ratio_is_small(s.avg.dur) && ratio_is_small(s.avg.js) && ratio_is_small(s.avg.ult)
        && ratio_is_small(s.avg.paint) && ratio_is_small(s.avg.composite) && ratio_is_small(
        s.avg.hit_test,
    ) && ratio_is_small(s.avg.layout)
}

/// Whether the times of a profile can be compared.
pub fn check_times(c: &CpuProfileResult) -> (r: bool)
    ensures
        r == times_fit(*c),
{
    let mut i: usize = 0;
    while i < c.functions.len()
        invariant
            i <= c.functions@.len(),
            forall|k: int|
                0 <= k < i ==> 0 <= (#[trigger] c.functions@[k]).self_time <= i64::MAX,
        decreases c.functions@.len() - i,
    {
        let t = c.functions[i].self_time;
        if t < 0 || t > i64::MAX as i128 {
            assert(c.functions@[i as int].self_time == t);
            return false;
        }
        i = i + 1;
    }
    0 <= c.total_sample_time && c.total_sample_time <= i64::MAX as i128
}

/// Whether the averages of layout and style can be compared.
pub fn check_counts(l: &LayoutDirtyResult, s: &StyleRecalcResult) -> (r: bool)
    ensures
        r == (ratio_fits(l.avg_dirty) && ratio_fits(s.avg_elements)),
{
    ratio_is_small(l.avg_dirty) && ratio_is_small(s.avg_elements)
}

/// A quotient does not differ from itself.
pub proof fn lemma_self_diff(a: Ratio)
    requires
        ratio_fits(a),
    ensures
        diff_of(a, a).size.num == 0,
        !diff_of(a, a).neg,
        forall|limit: int| 0 <= limit <= 100 ==> !#[trigger] over(diff_of(a, a), limit),
{
    lemma_products(a, a);
    assert forall|limit: int| 0 <= limit <= 100 implies !#[trigger] over(diff_of(a, a), limit) by {
        let d = diff_of(a, a);
        assert((limit as u128) * d.size.den >= 0) by (nonlinear_arith);
    }
}

/// A trace compared with itself gives no finding.
pub proof fn lemma_self_comparison(
    summary: SummaryResult,
    scroll: ScrollFrameResult,
    layout: LayoutDirtyResult,
    style: StyleRecalcResult,
)
    requires
        summary_fits(summary),
        frames_fit(scroll),
        ratio_fits(layout.avg_dirty),
        ratio_fits(style.avg_elements),
    ensures
        all_changes(summary, summary, scroll, scroll, layout, layout, style, style).len() == 0,
{
    lemma_self_diff(whole(summary.long_task_count as int));
    lemma_self_diff(whole(summary.main_thread_busy as int));
    lemma_self_diff(scroll.avg.dur);
    lemma_self_diff(scroll.avg.js);
    lemma_self_diff(scroll.avg.ult);
    lemma_self_diff(scroll.avg.paint);
    lemma_self_diff(scroll.avg.composite);
    lemma_self_diff(scroll.avg.hit_test);
    lemma_self_diff(scroll.avg.layout);
    lemma_self_diff(layout.avg_dirty);
    lemma_self_diff(style.avg_elements);
}

/// No regression stands behind an improvement.
pub proof fn lemma_regressions_first(f: Seq<FindingView>, i: int, j: int)
    requires
        0 <= i < j < by_severity(f).len(),
        by_severity(f)[j].severity == FindingSeverity::Regressed,
    ensures
        by_severity(f)[i].severity == FindingSeverity::Regressed,
{
    lemma_severity(f, FindingSeverity::Regressed);
    lemma_severity(f, FindingSeverity::Improved);
    lemma_severity(f, FindingSeverity::Neutral);
}

proof fn lemma_severity(f: Seq<FindingView>, s: FindingSeverity)
    ensures
        forall|i: int|
            0 <= i < of_severity(f, s).len() ==> (#[trigger] of_severity(f, s)[i]).severity == s,
    decreases f.len(),
{
    if f.len() > 0 {
        lemma_severity(f.drop_last(), s);
    }
}

} // verus!
