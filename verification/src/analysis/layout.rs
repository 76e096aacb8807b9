//! Layout dirty-object analysis.

use vstd::prelude::*;
use crate::analysis::common::{dur_of, dur_or_zero, lemma_total_bound, on_thread, total, Ratio};
use crate::analysis::style::{at_least_one, count_in, low_count};
use crate::json::{get_opt, member_opt, u64_opt};
use crate::sort::{order, orders};
use crate::text::same;
use crate::trace::event::TraceEvent;
use crate::trace::meta::PH_COMPLETE;

verus! {

/// One layout.
#[derive(Clone, Copy)]
pub struct LayoutDirtyEntry {
    pub ts: i64,
    pub dur: i64,
    pub dirty_count: u32,
    pub total_count: u32,
}

/// The layouts, those with the most dirty objects first. `ratios` gives the
/// dirty share of each layout that has objects; their sum over `avg_dirty.den`
/// is the average share.
pub struct LayoutDirtyResult {
    pub entries: Vec<LayoutDirtyEntry>,
    pub avg_dirty: Ratio,
    pub max_dirty: u32,
    pub ratios: Vec<Ratio>,
}

/// The entry of an event, if it is a layout that tells what it began with.
pub open spec fn layout_entry(e: TraceEvent, main_tid: u64) -> Option<LayoutDirtyEntry> {
    let begin = member_opt(e@.said(), "beginData"@);
    if on_thread(e, main_tid) && e.name@ == "Layout"@ && begin is Some {
        Some(
            LayoutDirtyEntry {
                ts: e.ts,
                dur: dur_of(e) as i64,
                dirty_count: low_count(u64_opt(member_opt(begin, "dirtyObjects"@))),
                total_count: low_count(u64_opt(member_opt(begin, "totalObjects"@))),
            },
        )
    } else {
        None
    }
}

/// The entries of a trace, in its order.
pub open spec fn layout_entries(events: Seq<TraceEvent>, main_tid: u64) -> Seq<LayoutDirtyEntry>
    decreases events.len(),
{
    if events.len() == 0 {
        Seq::empty()
    } else {
        let before = layout_entries(events.drop_last(), main_tid);
        match layout_entry(events.last(), main_tid) {
            Some(x) => before.push(x),
            None => before,
        }
    }
}

pub open spec fn dirty_counts(s: Seq<LayoutDirtyEntry>) -> Seq<i128> {
    s.map_values(|x: LayoutDirtyEntry| x.dirty_count as i128)
}

/// `r` holds the entries `s`, those with the most dirty objects first.
pub open spec fn most_dirty_first(s: Seq<LayoutDirtyEntry>, r: Seq<LayoutDirtyEntry>) -> bool {
    exists|p: Seq<usize>|
        {
            &&& #[trigger] orders(dirty_counts(s), true, p)
            &&& r.len() == p.len()
            &&& forall|i: int| 0 <= i < r.len() ==> #[trigger] r[i] == s[p[i] as int]
        }
}

pub open spec fn dirty(x: LayoutDirtyEntry) -> int {
    x.dirty_count as int
}

/// The dirty shares of the entries that have objects.
pub open spec fn dirty_ratios(s: Seq<LayoutDirtyEntry>) -> Seq<Ratio>
    decreases s.len(),
{
    if s.len() == 0 {
        Seq::empty()
    } else {
        let before = dirty_ratios(s.drop_last());
        let x = s.last();
        if x.total_count > 0 {
            before.push(Ratio { num: x.dirty_count as i128, den: x.total_count as i128 })
        } else {
            before
        }
    }
}

/// What each field of the result says.
pub open spec fn layout_dirty_of(events: Seq<TraceEvent>, main_tid: u64, r: LayoutDirtyResult) -> bool {
    let s = layout_entries(events, main_tid);
    &&& most_dirty_first(s, r.entries@)
    &&& r.avg_dirty.num == total(s, |x: LayoutDirtyEntry| dirty(x))
    &&& r.avg_dirty.den == at_least_one(s.len())
    &&& if s.len() == 0 {
        r.max_dirty == 0
    } else {
        r.max_dirty == r.entries@[0].dirty_count
    }
    &&& r.ratios@ == dirty_ratios(r.entries@)
}

/// Analyze the layouts of the main thread.
pub fn analyze_layout_dirty(events: &[TraceEvent], main_tid: u64) -> (r: LayoutDirtyResult)
    ensures
        layout_dirty_of(events@, main_tid, r),
{
    let n = events.len();
    let ghost f = |x: LayoutDirtyEntry| dirty(x);
    let mut found: Vec<LayoutDirtyEntry> = Vec::new();
    let mut keys: Vec<i128> = Vec::new();
    let mut sum: i128 = 0;
    let mut i: usize = 0;
    assert(events@.take(0) =~= Seq::<TraceEvent>::empty());
    while i < n
        invariant
            n == events@.len(),
            i <= n,
            f == (|x: LayoutDirtyEntry| dirty(x)),
            found@ == layout_entries(events@.take(i as int), main_tid),
            found@.len() <= i,
            keys@ =~= dirty_counts(found@),
            sum == total(found@, f),
        decreases n - i,
    {
        let e = &events[i];
        assert(events@.take(i + 1).drop_last() =~= events@.take(i as int));
        if e.tid == main_tid && e.ph == PH_COMPLETE && same(e.name.as_str(), "Layout") {
            let value = e.args_value();
            let begin = get_opt(value, "beginData");
            if begin.is_some() {
                let entry = LayoutDirtyEntry {
                    ts: e.ts,
                    dur: dur_or_zero(e),
                    dirty_count: count_in(get_opt(begin, "dirtyObjects")),
                    total_count: count_in(get_opt(begin, "totalObjects")),
                };
                let ghost before = found@;
                proof {
                    lemma_total_bound(before, f);
                }
                found.push(entry);
                keys.push(entry.dirty_count as i128);
                sum = sum + entry.dirty_count as i128;
                proof {
                    assert(found@.drop_last() =~= before);
                }
            }
        }
        i = i + 1;
    }
    assert(events@.take(n as int) =~= events@);
    let p = order(&keys, true);
    let mut entries: Vec<LayoutDirtyEntry> = Vec::new();
    let mut ratios: Vec<Ratio> = Vec::new();
    let mut k: usize = 0;
    while k < p.len()
        invariant
            k <= p@.len(),
            orders(keys@, true, p@),
            keys@.len() == found@.len(),
            entries@.len() == k,
            forall|j: int| 0 <= j < k ==> #[trigger] entries@[j] == found@[p@[j] as int],
            ratios@ == dirty_ratios(entries@),
        decreases p@.len() - k,
    {
        let slot = p[k];
        let entry = found[slot];
        let ghost before = entries@;
        entries.push(entry);
        assert(entries@.drop_last() =~= before);
        if entry.total_count > 0 {
            ratios.push(Ratio { num: entry.dirty_count as i128, den: entry.total_count as i128 });
        }
        k = k + 1;
    }
    let count = found.len();
    let max: u32 = if entries.len() == 0 {
        0
    } else {
        entries[0].dirty_count
    };
    let den: i128 = if count == 0 {
        1
    } else {
        count as i128
    };
    LayoutDirtyResult { entries, avg_dirty: Ratio { num: sum, den }, max_dirty: max, ratios }
}

} // verus!
