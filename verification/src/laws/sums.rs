//! Sums and largest values when one more item is put somewhere into a list.

use vstd::prelude::*;
use crate::analysis::common::total;
use crate::analysis::jank::largest;
use crate::sort::holds;
use crate::trace::event::TraceEvent;

verus! {

/// One more item adds what it is worth to a sum.
pub proof fn lemma_total_insert<T>(s: Seq<T>, k: int, x: T, f: spec_fn(T) -> int)
    requires
        0 <= k <= s.len(),
    ensures
        total(s.insert(k, x), f) == total(s, f) + f(x),
    decreases s.len(),
{
    let more = s.insert(k, x);
    if k == s.len() {
        assert(more.drop_last() =~= s);
        assert(more.last() == x);
    } else {
        lemma_total_insert(s.drop_last(), k, x, f);
        assert(more.drop_last() =~= s.drop_last().insert(k, x));
        assert(more.last() == s.last());
    }
}

/// One more event raises a largest value to its own, where that is larger.
pub proof fn lemma_largest_insert(s: Seq<TraceEvent>, k: int, x: TraceEvent, f: spec_fn(TraceEvent) -> int)
    requires
        0 <= k <= s.len(),
    ensures
        largest(s.insert(k, x), f) == if f(x) > largest(s, f) {
            f(x)
        } else {
            largest(s, f)
        },
    decreases s.len(),
{
    let more = s.insert(k, x);
    if k == s.len() {
        assert(more.drop_last() =~= s);
        assert(more.last() == x);
    } else {
        lemma_largest_insert(s.drop_last(), k, x, f);
        assert(more.drop_last() =~= s.drop_last().insert(k, x));
        assert(more.last() == s.last());
    }
}

/// A largest value is that of some event, and no event has a larger one.
pub proof fn lemma_largest(s: Seq<TraceEvent>, f: spec_fn(TraceEvent) -> int)
    ensures
        0 <= largest(s, f),
        forall|i: int| 0 <= i < s.len() ==> f(#[trigger] s[i]) <= largest(s, f),
        largest(s, f) > 0 ==> exists|i: int| 0 <= i < s.len() && f(#[trigger] s[i]) == largest(s, f),
    decreases s.len(),
{
    if s.len() > 0 {
        let t = s.drop_last();
        lemma_largest(t, f);
        assert forall|i: int| 0 <= i < s.len() implies f(#[trigger] s[i]) <= largest(s, f) by {
            if i < t.len() {
                assert(t[i] == s[i]);
            }
        }
        if largest(s, f) > 0 {
            if f(s.last()) > largest(t, f) {
                assert(f(s[s.len() - 1]) == largest(s, f));
            } else {
                let i = choose|i: int| 0 <= i < t.len() && f(#[trigger] t[i]) == largest(t, f);
                assert(f(s[i]) == largest(s, f));
            }
        }
    }
}

/// A sum of figures that are never negative is no smaller than any of them.
pub proof fn lemma_total_least<T>(s: Seq<T>, f: spec_fn(T) -> int, i: int)
    requires
        0 <= i < s.len(),
        forall|x: T| 0 <= #[trigger] f(x),
    ensures
        f(s[i]) <= total(s, f),
    decreases s.len(),
{
    lemma_total_positive(s.drop_last(), f);
    if i < s.len() - 1 {
        lemma_total_least(s.drop_last(), f, i);
    }
}

pub proof fn lemma_total_positive<T>(s: Seq<T>, f: spec_fn(T) -> int)
    requires
        forall|x: T| 0 <= #[trigger] f(x),
    ensures
        0 <= total(s, f),
    decreases s.len(),
{
    if s.len() > 0 {
        lemma_total_positive(s.drop_last(), f);
    }
}

/// Sums of figures that agree on the items are the same.
pub proof fn lemma_total_same<T>(s: Seq<T>, f: spec_fn(T) -> int, g: spec_fn(T) -> int)
    requires
        forall|i: int| 0 <= i < s.len() ==> f(#[trigger] s[i]) == g(s[i]),
    ensures
        total(s, f) == total(s, g),
    decreases s.len(),
{
    if s.len() > 0 {
        let t = s.drop_last();
        assert forall|i: int| 0 <= i < t.len() implies f(#[trigger] t[i]) == g(t[i]) by {
            assert(t[i] == s[i]);
        }
        lemma_total_same(t, f, g);
        assert(s.last() == s[s.len() - 1]);
    }
}

/// A sum over items that are worth nothing is zero.
pub proof fn lemma_total_zero<T>(s: Seq<T>, f: spec_fn(T) -> int)
    requires
        forall|i: int| 0 <= i < s.len() ==> f(#[trigger] s[i]) == 0,
    ensures
        total(s, f) == 0,
    decreases s.len(),
{
    if s.len() > 0 {
        let t = s.drop_last();
        assert forall|i: int| 0 <= i < t.len() implies f(#[trigger] t[i]) == 0 by {
            assert(t[i] == s[i]);
        }
        lemma_total_zero(t, f);
    }
}

/// What a list of places holds, summed up, is the sum over the items that are
/// listed.
pub proof fn lemma_total_places<T>(
    events: Seq<T>,
    p: Seq<usize>,
    listed: spec_fn(T) -> bool,
    f: spec_fn(usize) -> int,
    g: spec_fn(T) -> int,
)
    requires
        forall|i: int| 0 <= i < p.len() ==> (#[trigger] p[i]) < events.len() && listed(events[p[i] as int]),
        forall|i: int, j: int| 0 <= i < j < p.len() ==> (#[trigger] p[i]) != (#[trigger] p[j]),
        forall|x: int| 0 <= x < events.len() && listed(#[trigger] events[x]) ==> holds(p, x),
        forall|i: int| 0 <= i < p.len() ==> f(#[trigger] p[i]) == g(events[p[i] as int]),
        forall|x: int| 0 <= x < events.len() && !listed(#[trigger] events[x]) ==> g(events[x]) == 0,
    ensures
        total(p, f) == total(events, g),
    decreases events.len(),
{
    if events.len() == 0 {
        if p.len() > 0 {
            assert(p[0] < events.len());
        }
    } else {
        let n = events.len() - 1;
        let rest = events.drop_last();
        if listed(events[n]) {
            assert(holds(p, n));
            let w = choose|w: int| 0 <= w < p.len() && #[trigger] p[w] == n;
            let q = p.remove(w);
            lemma_total_insert(q, w, p[w], f);
            assert(q.insert(w, p[w]) =~= p);
            assert forall|i: int| 0 <= i < q.len() implies (#[trigger] q[i]) < rest.len() && listed(
                rest[q[i] as int],
            ) && f(q[i]) == g(rest[q[i] as int]) by {
                let j = if i < w {
                    i
                } else {
                    i + 1
                };
                assert(q[i] == p[j]);
                assert(p[j] != p[w]) by {
                    if j < w {
                        assert(p[j] != p[w]);
                    } else {
                        assert(p[w] != p[j]);
                    }
                }
            }
            assert forall|i: int, j: int| 0 <= i < j < q.len() implies (#[trigger] q[i]) != (
            #[trigger] q[j]) by {
                let a = if i < w {
                    i
                } else {
                    i + 1
                };
                let b = if j < w {
                    j
                } else {
                    j + 1
                };
                assert(q[i] == p[a] && q[j] == p[b]);
            }
            assert forall|x: int| 0 <= x < rest.len() && listed(#[trigger] rest[x]) implies holds(
                q,
                x,
            ) by {
                assert(events[x] == rest[x]);
                assert(holds(p, x));
                let v = choose|v: int| 0 <= v < p.len() && #[trigger] p[v] == x;
                assert(q[if v < w {
                    v
                } else {
                    v - 1
                }] == x);
            }
            assert forall|x: int| 0 <= x < rest.len() && !listed(#[trigger] rest[x]) implies g(rest[x])
                == 0 by {
                assert(events[x] == rest[x]);
            }
            lemma_total_places(rest, q, listed, f, g);
        } else {
            assert forall|i: int| 0 <= i < p.len() implies (#[trigger] p[i]) < rest.len() && listed(
                rest[p[i] as int],
            ) && f(p[i]) == g(rest[p[i] as int]) by {
                assert(listed(events[p[i] as int]));
            }
            assert forall|x: int| 0 <= x < rest.len() && listed(#[trigger] rest[x]) implies holds(
                p,
                x,
            ) by {
                assert(events[x] == rest[x]);
            }
            assert forall|x: int| 0 <= x < rest.len() && !listed(#[trigger] rest[x]) implies g(rest[x])
                == 0 by {
                assert(events[x] == rest[x]);
            }
            lemma_total_places(rest, p, listed, f, g);
            assert(g(events[n]) == 0);
        }
    }
}

/// A list in another order has the same sum.
pub proof fn lemma_total_order<T>(s: Seq<T>, t: Seq<T>, p: Seq<usize>, f: spec_fn(T) -> int)
    requires
        t.len() == p.len(),
        s.len() == p.len(),
        forall|i: int| 0 <= i < p.len() ==> (#[trigger] p[i]) < s.len() && t[i] == s[p[i] as int],
        forall|i: int, j: int| 0 <= i < j < p.len() ==> (#[trigger] p[i]) != (#[trigger] p[j]),
        forall|x: int| 0 <= x < s.len() ==> #[trigger] holds(p, x),
    ensures
        total(s, f) == total(t, f),
    decreases s.len(),
{
    if s.len() > 0 {
        let n = s.len() - 1;
        assert(holds(p, n));
        let w = choose|w: int| 0 <= w < p.len() && #[trigger] p[w] == n;
        let q = p.remove(w);
        let u = t.remove(w);
        let r = s.drop_last();
        lemma_total_insert(u, w, t[w], f);
        assert(u.insert(w, t[w]) =~= t);
        assert(t[w] == s[n]);
        assert forall|i: int| 0 <= i < q.len() implies (#[trigger] q[i]) < r.len() && u[i] == r[q[i] as int] by {
            let j = if i < w {
                i
            } else {
                i + 1
            };
            assert(q[i] == p[j]);
            if j < w {
                assert(p[j] != p[w]);
            } else {
                assert(p[w] != p[j]);
            }
        }
        assert forall|i: int, j: int| 0 <= i < j < q.len() implies (#[trigger] q[i]) != (
        #[trigger] q[j]) by {
            let a = if i < w {
                i
            } else {
                i + 1
            };
            let b = if j < w {
                j
            } else {
                j + 1
            };
            assert(q[i] == p[a] && q[j] == p[b]);
        }
        assert forall|x: int| 0 <= x < r.len() implies #[trigger] holds(q, x) by {
            assert(holds(p, x));
            let v = choose|v: int| 0 <= v < p.len() && #[trigger] p[v] == x;
            assert(q[if v < w {
                v
            } else {
                v - 1
            }] == x);
        }
        lemma_total_order(r, u, q, f);
    }
}

} // verus!
