//! Style recalculation (`UpdateLayoutTree`) analysis.

use vstd::prelude::*;
use crate::analysis::common::{dur_of, dur_or_zero, lemma_total_bound, on_thread, total, Ratio};
use crate::json::{get_opt, member_opt, u64_opt, Json};
use crate::sort::{order, orders};
use crate::text::same;
use crate::trace::event::TraceEvent;
use crate::trace::meta::PH_COMPLETE;

verus! {

/// One style recalculation.
#[derive(Clone, Copy)]
pub struct StyleRecalcEntry {
    pub dur: i64,
    pub element_count: u32,
}

/// The recalculations, those with the most elements first.
pub struct StyleRecalcResult {
    pub entries: Vec<StyleRecalcEntry>,
    pub avg_elements: Ratio,
    pub max_elements: u32,
    pub total_count: usize,
}

/// The lower half of a count that may be missing.
pub open spec fn low_count(v: Option<u64>) -> u32 {
    match v {
        Some(c) => (c % 0x1_0000_0000) as u32,
        None => 0,
    }
}

/// The lower half of a count that may be missing.
pub fn low_half(v: Option<u64>) -> (r: u32)
    ensures
        r == low_count(v),
{
    match v {
        Some(c) => (c % 0x1_0000_0000) as u32,
        None => 0,
    }
}

/// A count that may be missing, read from a value that may be missing.
pub fn count_in(j: Option<&Json>) -> (r: u32)
    ensures
        r == low_count(u64_opt(crate::json::json_opt(j))),
{
    match j {
        Some(v) => low_half(v.as_u64()),
        None => 0,
    }
}

/// The entry of an event, if it is a recalculation of at least one element.
pub open spec fn style_entry(e: TraceEvent, main_tid: u64) -> Option<StyleRecalcEntry> {
    let count = low_count(u64_opt(member_opt(e@.said(), "elementCount"@)));
    if on_thread(e, main_tid) && e.name@ == "UpdateLayoutTree"@ && count > 0 {
        Some(StyleRecalcEntry { dur: dur_of(e) as i64, element_count: count })
    } else {
        None
    }
}

/// The entries of a trace, in its order.
pub open spec fn style_entries(events: Seq<TraceEvent>, main_tid: u64) -> Seq<StyleRecalcEntry>
    decreases events.len(),
{
    if events.len() == 0 {
        Seq::empty()
    } else {
        let before = style_entries(events.drop_last(), main_tid);
        match style_entry(events.last(), main_tid) {
            Some(x) => before.push(x),
            None => before,
        }
    }
}

pub open spec fn element_counts(s: Seq<StyleRecalcEntry>) -> Seq<i128> {
    s.map_values(|x: StyleRecalcEntry| x.element_count as i128)
}

/// `r` holds the entries `s`, those with the most elements first.
pub open spec fn most_elements_first(s: Seq<StyleRecalcEntry>, r: Seq<StyleRecalcEntry>) -> bool {
    exists|p: Seq<usize>|
        {
            &&& #[trigger] orders(element_counts(s), true, p)
            &&& r.len() == p.len()
            &&& forall|i: int| 0 <= i < r.len() ==> #[trigger] r[i] == s[p[i] as int]
        }
}

pub open spec fn elements(x: StyleRecalcEntry) -> int {
    x.element_count as int
}

/// The number one, or the length if that is more.
pub open spec fn at_least_one(n: nat) -> int {
    if n == 0 {
        1
    } else {
        n as int
    }
}

/// What each field of the result says.
pub open spec fn style_of(events: Seq<TraceEvent>, main_tid: u64, r: StyleRecalcResult) -> bool {
    let s = style_entries(events, main_tid);
    &&& most_elements_first(s, r.entries@)
    &&& r.avg_elements.num == total(s, |x: StyleRecalcEntry| elements(x))
    &&& r.avg_elements.den == at_least_one(s.len())
    &&& if s.len() == 0 {
        r.max_elements == 0
    } else {
        r.max_elements == r.entries@[0].element_count
    }
    &&& r.total_count == s.len()
}

/// Analyze the style recalculations of the main thread.
pub fn analyze_style_recalc(events: &[TraceEvent], main_tid: u64) -> (r: StyleRecalcResult)
    ensures
        style_of(events@, main_tid, r),
{
    let n = events.len();
    let ghost f = |x: StyleRecalcEntry| elements(x);
    let mut found: Vec<StyleRecalcEntry> = Vec::new();
    let mut keys: Vec<i128> = Vec::new();
    let mut sum: i128 = 0;
    let mut i: usize = 0;
    assert(events@.take(0) =~= Seq::<TraceEvent>::empty());
    while i < n
        invariant
            n == events@.len(),
            i <= n,
            f == (|x: StyleRecalcEntry| elements(x)),
            found@ == style_entries(events@.take(i as int), main_tid),
            found@.len() <= i,
            keys@ =~= element_counts(found@),
            sum == total(found@, f),
        decreases n - i,
    {
        let e = &events[i];
        assert(events@.take(i + 1).drop_last() =~= events@.take(i as int));
        if e.tid == main_tid && e.ph == PH_COMPLETE && same(e.name.as_str(), "UpdateLayoutTree") {
            let value = e.args_value();
            let count = count_in(get_opt(value, "elementCount"));
            if count > 0 {
                let entry = StyleRecalcEntry { dur: dur_or_zero(e), element_count: count };
                let ghost before = found@;
                proof {
                    lemma_total_bound(before, f);
                }
                found.push(entry);
                keys.push(count as i128);
                sum = sum + count as i128;
                proof {
                    assert(found@.drop_last() =~= before);
                }
            }
        }
        i = i + 1;
    }
    assert(events@.take(n as int) =~= events@);
    let p = order(&keys, true);
    let mut entries: Vec<StyleRecalcEntry> = Vec::new();
    let mut k: usize = 0;
    while k < p.len()
        invariant
            k <= p@.len(),
            orders(keys@, true, p@),
            keys@.len() == found@.len(),
            entries@.len() == k,
            forall|j: int| 0 <= j < k ==> #[trigger] entries@[j] == found@[p@[j] as int],
        decreases p@.len() - k,
    {
        let slot = p[k];
        entries.push(found[slot]);
        k = k + 1;
    }
    let count = found.len();
    let max: u32 = if entries.len() == 0 {
        0
    } else {
        entries[0].element_count
    };
    let den: i128 = if count == 0 {
        1
    } else {
        count as i128
    };
    StyleRecalcResult {
        entries,
        avg_elements: Ratio { num: sum, den },
        max_elements: max,
        total_count: count,
    }
}

} // verus!
