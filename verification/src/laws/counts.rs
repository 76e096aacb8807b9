//! Which layouts and style recalculations are told, and what of them.

use vstd::prelude::*;
use crate::analysis::common::total;
use crate::analysis::layout::{
    dirty,
    dirty_counts,
    layout_dirty_of,
    layout_entries,
    layout_entry,
    LayoutDirtyEntry,
    LayoutDirtyResult,
};
use crate::analysis::style::{
    element_counts,
    elements,
    style_entries,
    style_entry,
    style_of,
    StyleRecalcEntry,
    StyleRecalcResult,
};
use crate::json::{member_opt, u64_opt};
use crate::sort::{comes_before, holds, orders};
use crate::trace::event::TraceEvent;

verus! {

/// A complete event of the thread with the name.
pub open spec fn complete_on(e: TraceEvent, tid: u64, name: Seq<char>) -> bool {
    e.name@ == name && e.ph == 88 && e.tid == tid
}

/// How long an event takes.
pub open spec fn takes(e: TraceEvent) -> i64 {
    match e.dur {
        Some(d) => d,
        None => 0,
    }
}

/// What a layout tells: the objects that were dirty as it began, and all of
/// them.
pub open spec fn layout_tells(e: TraceEvent, dirty: u32, all: u32) -> bool {
    let begin = member_opt(e@.said(), "beginData"@);
    &&& u64_opt(member_opt(begin, "dirtyObjects"@)) == Some(dirty as u64)
    &&& u64_opt(member_opt(begin, "totalObjects"@)) == Some(all as u64)
}

proof fn lemma_layout_listed(events: Seq<TraceEvent>, tid: u64, x: int)
    requires
        0 <= x < events.len(),
        layout_entry(events[x], tid) is Some,
    ensures
        layout_entries(events, tid).contains(layout_entry(events[x], tid)->0),
    decreases events.len(),
{
    let rest = events.drop_last();
    let all = layout_entries(events, tid);
    let before = layout_entries(rest, tid);
    let v = layout_entry(events[x], tid)->0;
    if x < rest.len() {
        assert(rest[x] == events[x]);
        lemma_layout_listed(rest, tid, x);
        let i = choose|i: int| 0 <= i < before.len() && before[i] == v;
        assert(all[i] == v);
    } else {
        assert(all[all.len() - 1] == v);
    }
}

proof fn lemma_layout_from(events: Seq<TraceEvent>, tid: u64, i: int)
    requires
        0 <= i < layout_entries(events, tid).len(),
    ensures
        exists|x: int|
            0 <= x < events.len() && layout_entry(#[trigger] events[x], tid) == Some(
                layout_entries(events, tid)[i],
            ),
    decreases events.len(),
{
    let rest = events.drop_last();
    let before = layout_entries(rest, tid);
    if i < before.len() {
        lemma_layout_from(rest, tid, i);
        let x = choose|x: int|
            0 <= x < rest.len() && layout_entry(#[trigger] rest[x], tid) == Some(before[i]);
        assert(events[x] == rest[x]);
    } else {
        assert(layout_entry(events[events.len() - 1], tid) == Some(layout_entries(events, tid)[i]));
    }
}

proof fn lemma_layout_order(events: Seq<TraceEvent>, tid: u64, r: LayoutDirtyResult) -> (p: Seq<usize>)
    requires
        layout_dirty_of(events, tid, r),
    ensures
        orders(dirty_counts(layout_entries(events, tid)), true, p),
        r.entries@.len() == p.len(),
        forall|i: int| 0 <= i < p.len() ==> #[trigger] r.entries@[i] == layout_entries(events, tid)[p[i] as int],
{
    let s = layout_entries(events, tid);
    choose|p: Seq<usize>|
        {
            &&& #[trigger] orders(dirty_counts(s), true, p)
            &&& r.entries@.len() == p.len()
            &&& forall|i: int| 0 <= i < r.entries@.len() ==> #[trigger] r.entries@[i] == s[p[i] as int]
        }
}

/// Every complete layout of the main thread that tells its objects is listed with
/// them.
pub proof fn lemma_layout_told(events: Seq<TraceEvent>, tid: u64, r: LayoutDirtyResult, x: int, n: u32, all: u32)
    requires
        layout_dirty_of(events, tid, r),
        0 <= x < events.len(),
        complete_on(events[x], tid, "Layout"@),
        layout_tells(events[x], n, all),
    ensures
        exists|i: int|
            0 <= i < r.entries@.len() && (#[trigger] r.entries@[i]).ts == events[x].ts && r.entries@[i].dur == takes(events[x])
                && r.entries@[i].dirty_count == n && r.entries@[i].total_count == all,
{
    let s = layout_entries(events, tid);
    let p = lemma_layout_order(events, tid, r);
    let v = LayoutDirtyEntry { ts: events[x].ts, dur: takes(events[x]), dirty_count: n, total_count: all };
    assert(layout_entry(events[x], tid) == Some(v));
    lemma_layout_listed(events, tid, x);
    let j = choose|j: int| 0 <= j < s.len() && s[j] == v;
    assert(dirty_counts(s).len() == s.len());
    assert(holds(p, j));
    let i = choose|i: int| 0 <= i < p.len() && #[trigger] p[i] == j;
    assert(r.entries@[i] == v);
}

/// What is listed is a complete event of the main thread of that name; the most
/// come first, the first gives the largest, and the average is that of the
/// list.
pub proof fn lemma_layout_list(events: Seq<TraceEvent>, tid: u64, r: LayoutDirtyResult)
    requires
        layout_dirty_of(events, tid, r),
    ensures
        forall|i: int|
            0 <= i < r.entries@.len() ==> exists|x: int|
                0 <= x < events.len() && complete_on(#[trigger] events[x], tid, "Layout"@)
                    && (#[trigger] r.entries@[i]).dur == takes(events[x]),
        forall|i: int, j: int|
            0 <= i < j < r.entries@.len() ==> (#[trigger] r.entries@[i]).dirty_count >= (
            #[trigger] r.entries@[j]).dirty_count,
        r.entries@.len() > 0 ==> r.max_dirty == r.entries@[0].dirty_count,
        r.entries@.len() == 0 ==> r.max_dirty == 0 && r.avg_dirty.num == 0,
        r.entries@.len() > 0 ==> r.avg_dirty.den == r.entries@.len(),
        r.avg_dirty.num == total(r.entries@, |y: LayoutDirtyEntry| y.dirty_count as int),
{
    let s = layout_entries(events, tid);
    let p = lemma_layout_order(events, tid, r);
    assert(dirty_counts(s).len() == s.len());
    assert forall|i: int| 0 <= i < r.entries@.len() implies exists|x: int|
        0 <= x < events.len() && complete_on(#[trigger] events[x], tid, "Layout"@) && (
        #[trigger] r.entries@[i]).dur == takes(events[x]) by {
        lemma_layout_from(events, tid, p[i] as int);
        let x = choose|x: int|
            0 <= x < events.len() && layout_entry(#[trigger] events[x], tid) == Some(s[p[i] as int]);
        assert(complete_on(events[x], tid, "Layout"@));
    }
    assert forall|i: int, j: int| 0 <= i < j < r.entries@.len() implies (#[trigger] r.entries@[i]).dirty_count
        >= (#[trigger] r.entries@[j]).dirty_count by {
        assert(comes_before(dirty_counts(s), true, p[i] as int, p[j] as int));
    }
    lemma_layout_sum(s, r.entries@, p);
}

proof fn lemma_layout_sum(s: Seq<LayoutDirtyEntry>, t: Seq<LayoutDirtyEntry>, p: Seq<usize>)
    requires
        orders(dirty_counts(s), true, p),
        t.len() == p.len(),
        forall|i: int| 0 <= i < p.len() ==> #[trigger] t[i] == s[p[i] as int],
    ensures
        total(s, |x: LayoutDirtyEntry| dirty(x)) == total(t, |y: LayoutDirtyEntry| y.dirty_count as int),
{
    let f = |x: LayoutDirtyEntry| dirty(x);
    let g = |y: LayoutDirtyEntry| y.dirty_count as int;
    assert(dirty_counts(s).len() == s.len());
    crate::laws::sums::lemma_total_order(s, t, p, f);
    crate::laws::sums::lemma_total_same(t, f, g);
}

/// What a recalculation tells: how many elements it looked at.
pub open spec fn style_tells(e: TraceEvent, n: u32) -> bool {
    u64_opt(member_opt(e@.said(), "elementCount"@)) == Some(n as u64)
}

proof fn lemma_style_listed(events: Seq<TraceEvent>, tid: u64, x: int)
    requires
        0 <= x < events.len(),
        style_entry(events[x], tid) is Some,
    ensures
        style_entries(events, tid).contains(style_entry(events[x], tid)->0),
    decreases events.len(),
{
    let rest = events.drop_last();
    let all = style_entries(events, tid);
    let before = style_entries(rest, tid);
    let v = style_entry(events[x], tid)->0;
    if x < rest.len() {
        assert(rest[x] == events[x]);
        lemma_style_listed(rest, tid, x);
        let i = choose|i: int| 0 <= i < before.len() && before[i] == v;
        assert(all[i] == v);
    } else {
        assert(all[all.len() - 1] == v);
    }
}

proof fn lemma_style_from(events: Seq<TraceEvent>, tid: u64, i: int)
    requires
        0 <= i < style_entries(events, tid).len(),
    ensures
        exists|x: int|
            0 <= x < events.len() && style_entry(#[trigger] events[x], tid) == Some(
                style_entries(events, tid)[i],
            ),
    decreases events.len(),
{
    let rest = events.drop_last();
    let before = style_entries(rest, tid);
    if i < before.len() {
        lemma_style_from(rest, tid, i);
        let x = choose|x: int|
            0 <= x < rest.len() && style_entry(#[trigger] rest[x], tid) == Some(before[i]);
        assert(events[x] == rest[x]);
    } else {
        assert(style_entry(events[events.len() - 1], tid) == Some(style_entries(events, tid)[i]));
    }
}

proof fn lemma_style_order(events: Seq<TraceEvent>, tid: u64, r: StyleRecalcResult) -> (p: Seq<usize>)
    requires
        style_of(events, tid, r),
    ensures
        orders(element_counts(style_entries(events, tid)), true, p),
        r.entries@.len() == p.len(),
        forall|i: int| 0 <= i < p.len() ==> #[trigger] r.entries@[i] == style_entries(events, tid)[p[i] as int],
{
    let s = style_entries(events, tid);
    choose|p: Seq<usize>|
        {
            &&& #[trigger] orders(element_counts(s), true, p)
            &&& r.entries@.len() == p.len()
            &&& forall|i: int| 0 <= i < r.entries@.len() ==> #[trigger] r.entries@[i] == s[p[i] as int]
        }
}

/// Every complete style recalculation of the main thread that looks at elements is
/// listed with their number.
pub proof fn lemma_style_told(events: Seq<TraceEvent>, tid: u64, r: StyleRecalcResult, x: int, n: u32)
    requires
        style_of(events, tid, r),
        0 <= x < events.len(),
        complete_on(events[x], tid, "UpdateLayoutTree"@),
        style_tells(events[x], n),
        n > 0,
    ensures
        exists|i: int|
            0 <= i < r.entries@.len() && (#[trigger] r.entries@[i]).dur == takes(events[x]) && r.entries@[i].element_count == n,
{
    let s = style_entries(events, tid);
    let p = lemma_style_order(events, tid, r);
    let v = StyleRecalcEntry { dur: takes(events[x]), element_count: n };
    assert(style_entry(events[x], tid) == Some(v));
    lemma_style_listed(events, tid, x);
    let j = choose|j: int| 0 <= j < s.len() && s[j] == v;
    assert(element_counts(s).len() == s.len());
    assert(holds(p, j));
    let i = choose|i: int| 0 <= i < p.len() && #[trigger] p[i] == j;
    assert(r.entries@[i] == v);
}

/// What is listed is a complete event of the main thread of that name; the most
/// come first, the first gives the largest, and the average is that of the
/// list.
pub proof fn lemma_style_list(events: Seq<TraceEvent>, tid: u64, r: StyleRecalcResult)
    requires
        style_of(events, tid, r),
    ensures
        forall|i: int|
            0 <= i < r.entries@.len() ==> exists|x: int|
                0 <= x < events.len() && complete_on(#[trigger] events[x], tid, "UpdateLayoutTree"@)
                    && (#[trigger] r.entries@[i]).dur == takes(events[x]),
        forall|i: int, j: int|
            0 <= i < j < r.entries@.len() ==> (#[trigger] r.entries@[i]).element_count >= (
            #[trigger] r.entries@[j]).element_count,
        r.entries@.len() > 0 ==> r.max_elements == r.entries@[0].element_count,
        r.entries@.len() == 0 ==> r.max_elements == 0 && r.avg_elements.num == 0,
        r.entries@.len() > 0 ==> r.avg_elements.den == r.entries@.len(),
        r.avg_elements.num == total(r.entries@, |y: StyleRecalcEntry| y.element_count as int),
{
    let s = style_entries(events, tid);
    let p = lemma_style_order(events, tid, r);
    assert(element_counts(s).len() == s.len());
    assert forall|i: int| 0 <= i < r.entries@.len() implies exists|x: int|
        0 <= x < events.len() && complete_on(#[trigger] events[x], tid, "UpdateLayoutTree"@) && (
        #[trigger] r.entries@[i]).dur == takes(events[x]) by {
        lemma_style_from(events, tid, p[i] as int);
        let x = choose|x: int|
            0 <= x < events.len() && style_entry(#[trigger] events[x], tid) == Some(s[p[i] as int]);
        assert(complete_on(events[x], tid, "UpdateLayoutTree"@));
    }
    assert forall|i: int, j: int| 0 <= i < j < r.entries@.len() implies (#[trigger] r.entries@[i]).element_count
        >= (#[trigger] r.entries@[j]).element_count by {
        assert(comes_before(element_counts(s), true, p[i] as int, p[j] as int));
    }
    lemma_style_sum(s, r.entries@, p);
}

proof fn lemma_style_sum(s: Seq<StyleRecalcEntry>, t: Seq<StyleRecalcEntry>, p: Seq<usize>)
    requires
        orders(element_counts(s), true, p),
        t.len() == p.len(),
        forall|i: int| 0 <= i < p.len() ==> #[trigger] t[i] == s[p[i] as int],
    ensures
        total(s, |x: StyleRecalcEntry| elements(x)) == total(t, |y: StyleRecalcEntry| y.element_count as int),
{
    let f = |x: StyleRecalcEntry| elements(x);
    let g = |y: StyleRecalcEntry| y.element_count as int;
    assert(element_counts(s).len() == s.len());
    crate::laws::sums::lemma_total_order(s, t, p, f);
    crate::laws::sums::lemma_total_same(t, f, g);
}

} // verus!
