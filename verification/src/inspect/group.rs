//! Selected events, grouped by name.

use vstd::prelude::*;
use crate::analysis::common::{
    dur_of,
    dur_or_zero,
    lemma_total_bound_by,
    lemma_total_step,
    total,
    TICK_BOUND,
};
use crate::table::{with_name, NameTable};
use crate::trace::event::TraceEvent;

verus! {

/// Positions of the events that `f` selects, in the order of the trace.
pub open spec fn positions(events: Seq<TraceEvent>, f: spec_fn(TraceEvent) -> bool) -> Seq<usize>
    decreases events.len(),
{
    if events.len() == 0 {
        Seq::empty()
    } else {
        let before = positions(events.drop_last(), f);
        if f(events.last()) {
            before.push((events.len() - 1) as usize)
        } else {
            before
        }
    }
}

/// All are positions of a list of `n`.
pub open spec fn positions_in(p: Seq<usize>, n: nat) -> bool {
    forall|i: int| 0 <= i < p.len() ==> (#[trigger] p[i]) < n
}

/// Positions are those of events that were selected.
pub proof fn lemma_positions(events: Seq<TraceEvent>, f: spec_fn(TraceEvent) -> bool)
    requires
        events.len() <= usize::MAX,
    ensures
        positions_in(positions(events, f), events.len()),
        positions(events, f).len() <= events.len(),
        forall|i: int|
            0 <= i < positions(events, f).len() ==> f(
                events[#[trigger] positions(events, f)[i] as int],
            ),
    decreases events.len(),
{
    if events.len() > 0 {
        let t = events.drop_last();
        lemma_positions(t, f);
        let p = positions(events, f);
        assert forall|i: int| 0 <= i < p.len() implies f(events[#[trigger] p[i] as int]) && p[i]
            < events.len() by {
            if i < positions(t, f).len() {
                assert(p[i] == positions(t, f)[i]);
            }
        }
    }
}

/// The names of the events at `p`, each once, in the order of first use.
pub open spec fn names_at(events: Seq<TraceEvent>, p: Seq<usize>) -> Seq<Seq<char>>
    decreases p.len(),
{
    if p.len() == 0 {
        Seq::empty()
    } else {
        with_name(names_at(events, p.drop_last()), events[p.last() as int].name@)
    }
}

/// The positions among `p` of the events with that name.
pub open spec fn named_at(events: Seq<TraceEvent>, p: Seq<usize>, name: Seq<char>) -> Seq<usize>
    decreases p.len(),
{
    if p.len() == 0 {
        Seq::empty()
    } else {
        let before = named_at(events, p.drop_last(), name);
        if events[p.last() as int].name@ == name {
            before.push(p.last())
        } else {
            before
        }
    }
}

/// Events of one name.
pub struct Group {
    pub name: String,
    /// Their positions in the trace.
    pub members: Vec<usize>,
}

/// One group per name, in the order of first use.
pub open spec fn groups_of(events: Seq<TraceEvent>, p: Seq<usize>, g: Seq<Group>) -> bool {
    let names = names_at(events, p);
    &&& g.len() == names.len()
    &&& forall|k: int|
        0 <= k < g.len() ==> (#[trigger] g[k]).name@ == names[k] && g[k].members@ == named_at(
            events,
            p,
            names[k],
        )
}

proof fn lemma_unnamed(events: Seq<TraceEvent>, p: Seq<usize>, name: Seq<char>)
    requires
        !names_at(events, p).contains(name),
    ensures
        named_at(events, p, name).len() == 0,
    decreases p.len(),
{
    if p.len() > 0 {
        let before = names_at(events, p.drop_last());
        let last = events[p.last() as int].name@;
        assert(!before.contains(name)) by {
            if before.contains(name) {
                let w = choose|w: int| 0 <= w < before.len() && before[w] == name;
                assert(with_name(before, last)[w] == name);
            }
        }
        assert(last != name) by {
            if last == name {
                if !before.contains(last) {
                    assert(before.push(last)[before.len() as int] == name);
                }
            }
        }
        lemma_unnamed(events, p.drop_last(), name);
    }
}

/// A group holds only such positions as it was made from, and no more of them.
pub proof fn lemma_named_in(events: Seq<TraceEvent>, p: Seq<usize>, name: Seq<char>, n: nat)
    requires
        positions_in(p, n),
    ensures
        positions_in(named_at(events, p, name), n),
        named_at(events, p, name).len() <= p.len(),
    decreases p.len(),
{
    if p.len() > 0 {
        assert(positions_in(p.drop_last(), n)) by {
            assert forall|i: int| 0 <= i < p.drop_last().len() implies (#[trigger] p.drop_last()[i])
                < n by {
                assert(p[i] < n);
            }
        }
        lemma_named_in(events, p.drop_last(), name, n);
        assert(p[p.len() - 1] < n);
    }
}

/// A name that is listed has an event.
pub proof fn lemma_named_some(events: Seq<TraceEvent>, p: Seq<usize>, k: int)
    requires
        0 <= k < names_at(events, p).len(),
    ensures
        named_at(events, p, names_at(events, p)[k]).len() > 0,
    decreases p.len(),
{
    if p.len() > 0 {
        let before = names_at(events, p.drop_last());
        if k < before.len() {
            lemma_named_some(events, p.drop_last(), k);
        }
    }
}

/// Group the events at `p` by name.
pub fn group_names(events: &[TraceEvent], p: &Vec<usize>) -> (g: Vec<Group>)
    requires
        positions_in(p@, events@.len()),
    ensures
        groups_of(events@, p@, g@),
{
    let mut names = NameTable::new();
    let mut members: Vec<Vec<usize>> = Vec::new();
    let mut i: usize = 0;
    proof {
        assert(p@.take(0) =~= Seq::<usize>::empty());
        assert(names@ =~= Seq::<Seq<char>>::empty());
    }
    while i < p.len()
        invariant
            i <= p@.len(),
            positions_in(p@, events@.len()),
            names.wf(),
            names@ == names_at(events@, p@.take(i as int)),
            members@.len() == names@.len(),
            forall|k: int|
                0 <= k < members@.len() ==> (#[trigger] members@[k])@ == named_at(
                    events@,
                    p@.take(i as int),
                    names@[k],
                ),
        decreases p@.len() - i,
    {
        let at = p[i];
        let ghost seen = p@.take(i as int);
        let ghost more = p@.take(i + 1);
        let ghost old_names = names@;
        let ghost old_members = members@;
        proof {
            assert(more.drop_last() =~= seen);
            assert(p@[i as int] < events@.len());
        }
        let slot = names.put(events[at].name.as_str());
        if slot == members.len() {
            proof {
                if old_names.contains(events@[at as int].name@) {
                    assert(names@ == old_names);
                }
                lemma_unnamed(events@, seen, events@[at as int].name@);
            }
            members.push(Vec::new());
        }
        members[slot].push(at);
        proof {
            assert forall|k: int| 0 <= k < members@.len() implies (#[trigger] members@[k])@
                == named_at(events@, more, names@[k]) by {
                if k != slot {
                    if names@[k] == names@[slot as int] {
                        names.lemma_distinct(k, slot as int);
                    }
                    assert(k < old_members.len());
                    assert(members@[k] == old_members[k]);
                    assert(names@[k] == old_names[k]);
                } else if k < old_members.len() {
                    assert(names@[k] == old_names[k]);
                    assert(members@[k]@ == old_members[k]@.push(at));
                } else {
                    assert(members@[k]@ =~= Seq::<usize>::empty().push(at));
                    assert(named_at(events@, seen, names@[k]) =~= Seq::<usize>::empty());
                }
            }
        }
        i = i + 1;
    }
    assert(p@.take(p@.len() as int) =~= p@);
    let mut g: Vec<Group> = Vec::new();
    let mut k: usize = 0;
    while k < members.len()
        invariant
            k <= members@.len(),
            members@.len() == names@.len(),
            names@ == names_at(events@, p@),
            forall|j: int|
                0 <= j < members@.len() ==> (#[trigger] members@[j])@ == named_at(
                    events@,
                    p@,
                    names@[j],
                ),
            g@.len() == k,
            forall|j: int|
                0 <= j < k ==> (#[trigger] g@[j]).name@ == names@[j] && g@[j].members@ == named_at(
                    events@,
                    p@,
                    names@[j],
                ),
        decreases members@.len() - k,
    {
        let list = copied(&members[k]);
        g.push(Group { name: names.name(k).to_owned(), members: list });
        k = k + 1;
    }
    g
}

fn copied(v: &Vec<usize>) -> (r: Vec<usize>)
    ensures
        r@ == v@,
{
    let mut r: Vec<usize> = Vec::new();
    let mut i: usize = 0;
    while i < v.len()
        invariant
            i <= v@.len(),
            r@ == v@.take(i as int),
        decreases v@.len() - i,
    {
        r.push(v[i]);
        assert(r@ =~= v@.take(i + 1));
        i = i + 1;
    }
    assert(v@.take(v@.len() as int) =~= v@);
    r
}

/// The duration of the event at a position.
pub open spec fn dur_at(events: Seq<TraceEvent>) -> spec_fn(usize) -> int {
    |i: usize| dur_of(events[i as int])
}

/// No sum of durations reaches this.
pub const DUR_SUM: i128 = 0x7fff_ffff_ffff_ffff_8000_0000_0000_0000;

/// The sum of the durations of the events at `p`.
pub fn sum_durs(events: &[TraceEvent], p: &Vec<usize>) -> (r: i128)
    requires
        positions_in(p@, events@.len()),
    ensures
        r == total(p@, dur_at(events@)),
        -DUR_SUM <= r <= DUR_SUM,
{
    let ghost f = dur_at(events@);
    let mut sum: i128 = 0;
    let len = p.len();
    let mut i: usize = 0;
    assert(p@.take(0) =~= Seq::<usize>::empty());
    while i < len
        invariant
            i <= len,
            len == p@.len(),
            positions_in(p@, events@.len()),
            f == dur_at(events@),
            sum == total(p@.take(i as int), f),
            -DUR_SUM <= sum <= DUR_SUM,
        decreases p@.len() - i,
    {
        let at = p[i];
        proof {
            assert(p@[i as int] < events@.len());
            lemma_total_step(p@, f, i as int);
            lemma_total_bound_by(p@.take(i as int), f, TICK_BOUND as int);
            lemma_total_bound_by(p@.take(i + 1), f, TICK_BOUND as int);
            let n = i + 1;
            assert(TICK_BOUND * n <= DUR_SUM && -TICK_BOUND * n >= -DUR_SUM) by (nonlinear_arith)
                requires
                    0 <= n <= 0xffff_ffff_ffff_ffff,
                    TICK_BOUND == 0x8000_0000_0000_0000,
                    DUR_SUM == 0x7fff_ffff_ffff_ffff_8000_0000_0000_0000,
            ;
        }
        sum = sum + dur_or_zero(&events[at]) as i128;
        i = i + 1;
    }
    assert(p@.take(p@.len() as int) =~= p@);
    sum
}

/// How many of the events at `p` have one of the first `k` names of a list.
pub open spec fn counted(events: Seq<TraceEvent>, p: Seq<usize>, names: Seq<Seq<char>>, k: int) -> int
    decreases k,
{
    if k <= 0 {
        0
    } else {
        counted(events, p, names, k - 1) + named_at(events, p, names[k - 1]).len()
    }
}

/// One more event counts once: under its own name.
proof fn lemma_counted_step(events: Seq<TraceEvent>, p: Seq<usize>, names: Seq<Seq<char>>, k: int)
    requires
        p.len() > 0,
        0 <= k <= names.len(),
        forall|i: int, j: int| 0 <= i < j < names.len() ==> names[i] != names[j],
    ensures
        counted(events, p, names, k) == counted(events, p.drop_last(), names, k) + (if exists|i: int|
            0 <= i < k && names[i] == events[p.last() as int].name@ {
            1int
        } else {
            0
        }),
    decreases k,
{
    if k > 0 {
        lemma_counted_step(events, p, names, k - 1);
        let last = events[p.last() as int].name@;
        if names[k - 1] == last {
            assert(!(exists|i: int| 0 <= i < k - 1 && names[i] == last));
        } else if exists|i: int| 0 <= i < k && names[i] == last {
            let i = choose|i: int| 0 <= i < k && names[i] == last;
            assert(0 <= i < k - 1 && names[i] == last);
        }
    }
}

pub proof fn lemma_names_distinct(events: Seq<TraceEvent>, p: Seq<usize>)
    ensures
        forall|i: int, j: int|
            0 <= i < j < names_at(events, p).len() ==> names_at(events, p)[i] != names_at(events, p)[j],
    decreases p.len(),
{
    if p.len() > 0 {
        lemma_names_distinct(events, p.drop_last());
        let before = names_at(events, p.drop_last());
        let names = names_at(events, p);
        assert forall|i: int, j: int| 0 <= i < j < names.len() implies names[i] != names[j] by {
            if j < before.len() {
                assert(names[i] == before[i] && names[j] == before[j]);
            } else {
                assert(names[i] == before[i]);
                assert(before.contains(before[i]));
            }
        }
    }
}

proof fn lemma_counted_more(events: Seq<TraceEvent>, p: Seq<usize>, a: Seq<Seq<char>>, b: Seq<Seq<char>>, k: int)
    requires
        0 <= k <= a.len(),
        k <= b.len(),
        forall|i: int| 0 <= i < k ==> a[i] == b[i],
    ensures
        counted(events, p, a, k) == counted(events, p, b, k),
    decreases k,
{
    if k > 0 {
        lemma_counted_more(events, p, a, b, k - 1);
    }
}

/// Grouped by name, every event is counted once.
pub proof fn lemma_groups_count_all(events: Seq<TraceEvent>, p: Seq<usize>)
    ensures
        counted(events, p, names_at(events, p), names_at(events, p).len() as int) == p.len(),
    decreases p.len(),
{
    if p.len() > 0 {
        let q = p.drop_last();
        let before = names_at(events, q);
        let names = names_at(events, p);
        let last = events[p.last() as int].name@;
        lemma_groups_count_all(events, q);
        lemma_names_distinct(events, p);
        lemma_counted_step(events, p, names, names.len() as int);
        lemma_counted_more(events, q, before, names, before.len() as int);
        if before.contains(last) {
            let i = choose|i: int| 0 <= i < before.len() && before[i] == last;
            assert(0 <= i < names.len() && names[i] == last);
        } else {
            lemma_unnamed(events, q, last);
            assert(names[before.len() as int] == last);
        }
    }
}

} // verus!
