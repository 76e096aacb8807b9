//! What the rows of a comparison hold of the two traces.

use vstd::prelude::*;
use crate::analysis::common::Ratio;
use crate::analysis::compare::{
    func_named,
    func_row,
    func_rows,
    gap_of,
    key_gaps,
    name_sizes,
    names_either,
    ratio_fits,
    row_of,
    rows_of,
    sorted_names,
    stat_named,
    stats_fit,
    timed_functions,
    times_fit,
    took_time,
    CompareRow,
    CpuFunctionDiff,
    TOP_FUNCTIONS,
};
use crate::analysis::cpu::{CpuProfileResult, FunctionTime};
use crate::analysis::summary::EventTypeStat;
use crate::frac::{larger_first, largest_first, Frac};
use crate::laws::compare::{apart, lemma_diff};
use crate::sort::holds;
use crate::text::{lemma_less_irreflexive, lemma_pair_order, text_less};

verus! {

/// No two rows are of the same kind.
pub open spec fn one_each(s: Seq<EventTypeStat>) -> bool {
    forall|i: int, j: int| 0 <= i < j < s.len() ==> (#[trigger] s[i]).name@ != (#[trigger] s[j]).name@
}

proof fn lemma_stat(s: Seq<EventTypeStat>, name: Seq<char>)
    requires
        one_each(s),
    ensures
        forall|i: int|
            0 <= i < s.len() && (#[trigger] s[i]).name@ == name ==> stat_named(s, name) == Some(s[i]),
        stat_named(s, name) matches Some(x) ==> exists|i: int|
            0 <= i < s.len() && #[trigger] s[i] == x && s[i].name@ == name,
    decreases s.len(),
{
    if s.len() > 0 {
        let t = s.drop_last();
        assert(one_each(t)) by {
            assert forall|i: int, j: int| 0 <= i < j < t.len() implies (#[trigger] t[i]).name@ != (
            #[trigger] t[j]).name@ by {
                assert(s[i].name@ != s[j].name@);
            }
        }
        lemma_stat(t, name);
        let last = s.len() - 1;
        assert forall|i: int| 0 <= i < s.len() && (#[trigger] s[i]).name@ == name implies stat_named(s, name)
            == Some(s[i]) by {
            if i < last {
                assert(s[i].name@ != s[last].name@);
                assert(t[i] == s[i]);
            }
        }
        if stat_named(s, name) is Some {
            if s.last().name@ == name {
                assert(s[last] == stat_named(s, name)->0);
            } else {
                let i = choose|i: int|
                    0 <= i < t.len() && #[trigger] t[i] == stat_named(t, name)->0 && t[i].name@ == name;
                assert(s[i] == stat_named(s, name)->0);
            }
        }
    }
}

/// What a side of a row tells of one trace: the count and the average of the
/// kind in that trace, or nothing where it has none.
pub open spec fn side_right(s: Seq<EventTypeStat>, name: Seq<char>, count: usize, avg: Ratio) -> bool {
    &&& forall|i: int|
        0 <= i < s.len() && (#[trigger] s[i]).name@ == name ==> count == s[i].count && avg == s[i].avg_time
    &&& (forall|i: int| 0 <= i < s.len() ==> (#[trigger] s[i]).name@ != name) ==> count == 0 && avg.num == 0
        && avg.den == 1
}

/// The kind of a row is one of the trace.
pub open spec fn in_trace(s: Seq<EventTypeStat>, name: Seq<char>) -> bool {
    exists|i: int| 0 <= i < s.len() && (#[trigger] s[i]).name@ == name
}

/// The rows of a comparison: each kind that either trace has, once. The first
/// figures are those of the first trace, the second those of the second. The
/// change is the second average against the first, as a share of the first, and
/// the largest changes come first.
pub proof fn lemma_rows(a: Seq<EventTypeStat>, b: Seq<EventTypeStat>, rows: Seq<CompareRow>)
    requires
        one_each(a),
        one_each(b),
        stats_fit(a),
        stats_fit(b),
        rows_of(a, b, rows),
    ensures
        forall|name: Seq<char>|
            #![trigger in_trace(a, name)]
            #![trigger in_trace(b, name)]
            in_trace(a, name) || in_trace(b, name) <==> exists|k: int|
                0 <= k < rows.len() && (#[trigger] rows[k]).event_name@ == name,
        forall|i: int, j: int|
            0 <= i < j < rows.len() ==> (#[trigger] rows[i]).event_name@ != (#[trigger] rows[j]).event_name@,
        forall|k: int|
            0 <= k < rows.len() ==> side_right(a, (#[trigger] rows[k]).event_name@, rows[k].count_a, rows[k].avg_a)
                && side_right(b, rows[k].event_name@, rows[k].count_b, rows[k].avg_b),
        forall|k: int| 0 <= k < rows.len() ==> change_right(#[trigger] rows[k]),
        forall|i: int, j: int|
            0 <= i < j < rows.len() ==> (#[trigger] rows[i]).diff.size.num * (#[trigger] rows[j]).diff.size.den
                >= rows[j].diff.size.num * rows[i].diff.size.den,
{
    let (names, top) = choose|names: Seq<Seq<char>>, top: Seq<usize>|
        {
            &&& #[trigger] sorted_names(a, b, names)
            &&& #[trigger] largest_first(name_sizes(a, b, names), names.len(), top)
            &&& rows.len() == top.len()
            &&& forall|i: int|
                0 <= i < rows.len() ==> row_of(a, b, names[top[i] as int], #[trigger] rows[i])
        };
    let keys = name_sizes(a, b, names);
    assert(keys.len() == names.len());
    assert(top.len() == names.len());
    assert forall|i: int, j: int| 0 <= i < j < rows.len() implies (#[trigger] rows[i]).event_name@ != (
    #[trigger] rows[j]).event_name@ && rows[i].diff.size.num * rows[j].diff.size.den
        >= rows[j].diff.size.num * rows[i].diff.size.den by {
        assert(larger_first(keys, top[i] as int, top[j] as int));
        assert(keys[top[i] as int] == rows[i].diff.size);
        assert(keys[top[j] as int] == rows[j].diff.size);
        let (x, y) = (top[i] as int, top[j] as int);
        if x < y {
            assert(text_less(names[x], names[y]));
        } else if y < x {
            assert(text_less(names[y], names[x]));
        }
        assert(x != y);
        lemma_less_irreflexive(names[x]);
    }
    assert forall|k: int| 0 <= k < rows.len() implies side_right(
        a,
        (#[trigger] rows[k]).event_name@,
        rows[k].count_a,
        rows[k].avg_a,
    ) && side_right(b, rows[k].event_name@, rows[k].count_b, rows[k].avg_b) && change_right(rows[k]) && ratio_fits(
        rows[k].avg_a,
    ) && (in_trace(a, rows[k].event_name@) || in_trace(b, rows[k].event_name@)) by {
        let name = names[top[k] as int];
        assert(row_of(a, b, name, rows[k]));
        assert(names_either(a, b, name));
        lemma_stat(a, name);
        lemma_stat(b, name);
        assert(ratio_fits(rows[k].avg_a) && ratio_fits(rows[k].avg_b));
        lemma_diff(rows[k].avg_a, rows[k].avg_b, 1);
    }
    assert forall|name: Seq<char>| in_trace(a, name) || in_trace(b, name) implies exists|k: int|
        0 <= k < rows.len() && (#[trigger] rows[k]).event_name@ == name by {
        lemma_stat(a, name);
        lemma_stat(b, name);
        assert(names_either(a, b, name));
        assert(names.contains(name));
        let n = choose|n: int| 0 <= n < names.len() && names[n] == name;
        lemma_all_listed(top, names.len() as int, keys);
        assert(holds(top, n));
        let k = choose|k: int| 0 <= k < top.len() && #[trigger] top[k] == n;
        assert(rows[k].event_name@ == name);
    }
}

/// The change is the second average less the first, as a share of the first,
/// with its sign; none where the first is none.
pub open spec fn change_right(r: CompareRow) -> bool {
    if r.avg_a.num > 0 {
        &&& r.diff.size.den > 0
        &&& r.diff.size.num * (r.avg_a.num * r.avg_b.den) == apart(
            r.avg_a.num * r.avg_b.den,
            r.avg_b.num * r.avg_a.den,
        ) * r.diff.size.den
        &&& r.diff.neg == (r.avg_b.num * r.avg_a.den < r.avg_a.num * r.avg_b.den)
    } else {
        r.diff.size.num == 0 && !r.diff.neg
    }
}

proof fn lemma_all_listed(top: Seq<usize>, n: int, keys: Seq<Frac>)
    requires
        top.len() == n,
        n == keys.len(),
        largest_first(keys, n as nat, top),
    ensures
        forall|x: int| 0 <= x < n ==> #[trigger] holds(top, x),
{
    assert forall|i: int, j: int| 0 <= i < j < top.len() implies (#[trigger] top[i]) != (#[trigger] top[j]) by {
        assert(larger_first(keys, top[i] as int, top[j] as int));
    }
    lemma_places_all(top, n);
}

/// Distinct numbers, as many as there are below a bound, are all of them.
proof fn lemma_places_all(top: Seq<usize>, n: int)
    requires
        top.len() == n,
        forall|i: int| 0 <= i < n ==> (#[trigger] top[i]) < n,
        forall|i: int, j: int| 0 <= i < j < n ==> (#[trigger] top[i]) != (#[trigger] top[j]),
    ensures
        forall|x: int| 0 <= x < n ==> #[trigger] holds(top, x),
    decreases n,
{
    if n > 0 {
        let m = n - 1;
        if holds(top, m) {
            let w = choose|w: int| 0 <= w < top.len() && #[trigger] top[w] == m;
            let rest = top.remove(w);
            assert forall|i: int| 0 <= i < m implies (#[trigger] rest[i]) < m by {
                let v = if i < w {
                    i
                } else {
                    i + 1
                };
                assert(rest[i] == top[v]);
                if v < w {
                    assert(top[v] != top[w]);
                } else {
                    assert(top[w] != top[v]);
                }
            }
            assert forall|i: int, j: int| 0 <= i < j < m implies (#[trigger] rest[i]) != (#[trigger] rest[j]) by {
                let v = if i < w {
                    i
                } else {
                    i + 1
                };
                let u = if j < w {
                    j
                } else {
                    j + 1
                };
                assert(top[v] != top[u]);
            }
            lemma_places_all(rest, m);
            assert forall|x: int| 0 <= x < n implies #[trigger] holds(top, x) by {
                if x < m {
                    assert(holds(rest, x));
                    let i = choose|i: int| 0 <= i < rest.len() && #[trigger] rest[i] == x;
                    assert(top[if i < w {
                        i
                    } else {
                        i + 1
                    }] == x);
                }
            }
        } else {
            let rest = top.drop_last();
            assert forall|i: int| 0 <= i < n implies (#[trigger] top[i]) < m by {}
            lemma_places_all(rest, m);
            let last = top[m] as int;
            assert(holds(rest, last));
            let i = choose|i: int| 0 <= i < rest.len() && #[trigger] rest[i] == last;
            assert(top[i] != top[m]);
        }
    }
}

/// No two functions have the same name and address.
pub open spec fn each_once(s: Seq<FunctionTime>) -> bool {
    forall|i: int, j: int|
        0 <= i < j < s.len() ==> (#[trigger] s[i]).function_name@ != (#[trigger] s[j]).function_name@ || s[i].url@
            != s[j].url@
}

/// The function has the name and the address.
pub open spec fn is_function(f: FunctionTime, name: Seq<char>, url: Seq<char>) -> bool {
    f.function_name@ == name && f.url@ == url
}

proof fn lemma_func(s: Seq<FunctionTime>, name: Seq<char>, url: Seq<char>)
    requires
        each_once(s),
    ensures
        forall|i: int|
            0 <= i < s.len() && is_function(#[trigger] s[i], name, url) ==> func_named(s, name, url) == Some(s[i]),
        func_named(s, name, url) matches Some(x) ==> exists|i: int|
            0 <= i < s.len() && #[trigger] s[i] == x && is_function(s[i], name, url),
    decreases s.len(),
{
    if s.len() > 0 {
        let t = s.drop_last();
        assert(each_once(t)) by {
            assert forall|i: int, j: int| 0 <= i < j < t.len() implies (#[trigger] t[i]).function_name@ != (
            #[trigger] t[j]).function_name@ || t[i].url@ != t[j].url@ by {
                assert(s[i].function_name@ != s[j].function_name@ || s[i].url@ != s[j].url@);
            }
        }
        lemma_func(t, name, url);
        let last = s.len() - 1;
        let before = func_named(t, name, url);
        assert forall|i: int| 0 <= i < s.len() && is_function(#[trigger] s[i], name, url) implies func_named(
            s,
            name,
            url,
        ) == Some(s[i]) by {
            if i < last {
                assert(t[i] == s[i]);
            } else if before is Some {
                let j = choose|j: int|
                    0 <= j < t.len() && #[trigger] t[j] == before->0 && is_function(t[j], name, url);
                assert(s[j].function_name@ != s[last].function_name@ || s[j].url@ != s[last].url@);
            }
        }
        if func_named(s, name, url) is Some {
            if before is Some {
                let j = choose|j: int|
                    0 <= j < t.len() && #[trigger] t[j] == before->0 && is_function(t[j], name, url);
                assert(s[j] == func_named(s, name, url)->0);
            } else {
                assert(s[last] == func_named(s, name, url)->0);
            }
        }
    }
}

/// A side of a function's row: the time of the function in that profile, none
/// where it has none, and its share of what was sampled there.
pub open spec fn time_right(c: CpuProfileResult, name: Seq<char>, url: Seq<char>, time: i128, share: Ratio) -> bool {
    &&& forall|i: int|
        0 <= i < c.functions@.len() && is_function(#[trigger] c.functions@[i], name, url) ==> time
            == c.functions@[i].self_time
    &&& (forall|i: int| 0 <= i < c.functions@.len() ==> !is_function(#[trigger] c.functions@[i], name, url))
        ==> time == 0
    &&& if c.total_sample_time > 0 {
        share.num == time && share.den == c.total_sample_time
    } else {
        share.num == 0 && share.den == 1
    }
}

/// How far the shares of a row lie apart, over the product of what was sampled.
pub open spec fn gap(r: CpuFunctionDiff) -> int {
    apart(r.share_a.num * r.share_b.den, r.share_b.num * r.share_a.den)
}

/// The functions of a comparison: thirty at most, each once, none without time
/// in both; the first figures are those of the first profile, the second those
/// of the second; those whose shares lie furthest apart come first.
pub proof fn lemma_functions(a: CpuProfileResult, b: CpuProfileResult, rows: Seq<CpuFunctionDiff>)
    requires
        each_once(a.functions@),
        each_once(b.functions@),
        times_fit(a),
        times_fit(b),
        func_rows(a, b, rows),
    ensures
        rows.len() <= 30,
        forall|k: int|
            0 <= k < rows.len() ==> time_right(
                a,
                (#[trigger] rows[k]).function_name@,
                rows[k].url@,
                rows[k].time_a,
                rows[k].share_a,
            ) && time_right(b, rows[k].function_name@, rows[k].url@, rows[k].time_b, rows[k].share_b) && (
            rows[k].time_a > 0 || rows[k].time_b > 0),
        forall|i: int, j: int|
            0 <= i < j < rows.len() ==> (#[trigger] rows[i]).function_name@ != (#[trigger] rows[j]).function_name@
                || rows[i].url@ != rows[j].url@,
        forall|i: int, j: int|
            0 <= i < j < rows.len() ==> gap(#[trigger] rows[i]) >= gap(#[trigger] rows[j]),
        rows.len() < 30 ==> forall|i: int|
            0 <= i < a.functions@.len() && (#[trigger] a.functions@[i]).self_time > 0 ==> exists|k: int|
                0 <= k < rows.len() && (#[trigger] rows[k]).function_name@ == a.functions@[i].function_name@
                    && rows[k].url@ == a.functions@[i].url@,
        rows.len() < 30 ==> forall|i: int|
            0 <= i < b.functions@.len() && (#[trigger] b.functions@[i]).self_time > 0 ==> exists|k: int|
                0 <= k < rows.len() && (#[trigger] rows[k]).function_name@ == b.functions@[i].function_name@
                    && rows[k].url@ == b.functions@[i].url@,
{
    let (keys, top) = choose|keys: Seq<(Seq<char>, Seq<char>)>, top: Seq<usize>|
        {
            &&& #[trigger] timed_functions(a, b, keys)
            &&& #[trigger] largest_first(key_gaps(a, b, keys), TOP_FUNCTIONS as nat, top)
            &&& rows.len() == top.len()
            &&& forall|i: int|
                0 <= i < rows.len() ==> func_row(a, b, keys[top[i] as int], #[trigger] rows[i])
        };
    let gaps = key_gaps(a, b, keys);
    assert(gaps.len() == keys.len());
    assert forall|k: int| 0 <= k < rows.len() implies time_right(
        a,
        (#[trigger] rows[k]).function_name@,
        rows[k].url@,
        rows[k].time_a,
        rows[k].share_a,
    ) && time_right(b, rows[k].function_name@, rows[k].url@, rows[k].time_b, rows[k].share_b) && (rows[k].time_a
        > 0 || rows[k].time_b > 0) && gap_fits(gaps[top[k] as int], rows[k]) by {
        let key = keys[top[k] as int];
        assert(func_row(a, b, key, rows[k]));
        assert(keys.contains(key));
        assert(took_time(a, b, key));
        let (name, url) = key;
        lemma_func(a.functions@, name, url);
        lemma_func(b.functions@, name, url);
        assert(gaps[top[k] as int] == gap_of(a, b, key));
        let (r, n) = (rows[k].share_a, rows[k].share_b);
        let (rn, rd, nn, nd) = (r.num as int, r.den as int, n.num as int, n.den as int);
        let bound: int = 0x8000_0000_0000_0000;
        assert(0 <= rn * nd <= bound * bound && 0 <= nn * rd <= bound * bound && 1 <= rd * nd <= bound * bound)
            by (nonlinear_arith)
            requires
                0 <= rn <= bound,
                1 <= rd <= bound,
                0 <= nn <= bound,
                1 <= nd <= bound,
        ;
    }
    assert forall|i: int, j: int| 0 <= i < j < rows.len() implies ((#[trigger] rows[i]).function_name@ != (
    #[trigger] rows[j]).function_name@ || rows[i].url@ != rows[j].url@) && gap(rows[i]) >= gap(rows[j]) by {
        let (x, y) = (top[i] as int, top[j] as int);
        assert(larger_first(gaps, x, y));
        lemma_pair_order(keys[x], keys[y], keys[x]);
        assert(gap_fits(gaps[x], rows[i]) && gap_fits(gaps[y], rows[j]));
        let d = rows[i].share_a.den * rows[i].share_b.den;
        assert(rows[j].share_a.den * rows[j].share_b.den == d);
        let (g, h) = (gap(rows[i]), gap(rows[j]));
        assert(g * d >= h * d ==> g >= h) by (nonlinear_arith)
            requires
                d >= 1,
        ;
    }
    if rows.len() < 30 {
        lemma_all_listed(top, keys.len() as int, gaps);
        assert forall|key: (Seq<char>, Seq<char>)| #[trigger] took_time(a, b, key) implies exists|k: int|
            0 <= k < rows.len() && (#[trigger] rows[k]).function_name@ == key.0 && rows[k].url@ == key.1 by {
            assert(keys.contains(key));
            let n = choose|n: int| 0 <= n < keys.len() && keys[n] == key;
            assert(holds(top, n));
            let k = choose|k: int| 0 <= k < top.len() && #[trigger] top[k] == n;
            assert(rows[k].function_name@ == key.0 && rows[k].url@ == key.1);
        }
        assert forall|i: int| 0 <= i < a.functions@.len() && (#[trigger] a.functions@[i]).self_time > 0 implies exists|
            k: int,
        |
            0 <= k < rows.len() && (#[trigger] rows[k]).function_name@ == a.functions@[i].function_name@
                && rows[k].url@ == a.functions@[i].url@ by {
            let f = a.functions@[i];
            lemma_func(a.functions@, f.function_name@, f.url@);
            assert(took_time(a, b, (f.function_name@, f.url@)));
        }
        assert forall|i: int| 0 <= i < b.functions@.len() && (#[trigger] b.functions@[i]).self_time > 0 implies exists|
            k: int,
        |
            0 <= k < rows.len() && (#[trigger] rows[k]).function_name@ == b.functions@[i].function_name@
                && rows[k].url@ == b.functions@[i].url@ by {
            let f = b.functions@[i];
            lemma_func(b.functions@, f.function_name@, f.url@);
            assert(took_time(a, b, (f.function_name@, f.url@)));
        }
    }
}

spec fn gap_fits(g: Frac, r: CpuFunctionDiff) -> bool {
    g.num == gap(r) && g.den == r.share_a.den * r.share_b.den && g.den >= 1
}

} // verus!
