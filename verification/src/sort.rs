//! Stable sorting: the order in which the keys of a list stand, as positions.

use vstd::prelude::*;
use crate::text::{lemma_less_irreflexive, lemma_less_total, lemma_less_transitive, less, same, text_less};

verus! {

/// Position `a` comes before position `b`: by key, smaller or larger first,
/// and by position where the keys are equal.
pub open spec fn comes_before(keys: Seq<i128>, desc: bool, a: int, b: int) -> bool {
    if keys[a] == keys[b] {
        a < b
    } else if desc {
        keys[a] > keys[b]
    } else {
        keys[a] < keys[b]
    }
}

/// `p` holds the positions `[lo, hi)` of `keys` in order, each once.
pub open spec fn orders_part(keys: Seq<i128>, desc: bool, lo: int, hi: int, p: Seq<usize>) -> bool {
    &&& p.len() == hi - lo
    &&& forall|i: int| 0 <= i < p.len() ==> lo <= #[trigger] p[i] < hi
    &&& forall|i: int, j: int|
        0 <= i < j < p.len() ==> comes_before(
            keys,
            desc,
            #[trigger] p[i] as int,
            #[trigger] p[j] as int,
        )
    &&& forall|x: int| lo <= x < hi ==> #[trigger] holds(p, x)
}

/// `x` is among the positions `p`.
pub open spec fn holds(p: Seq<usize>, x: int) -> bool {
    exists|i: int| 0 <= i < p.len() && #[trigger] p[i] == x
}

/// `p` is the stable order of `keys`: every position once, sorted by key.
pub open spec fn orders(keys: Seq<i128>, desc: bool, p: Seq<usize>) -> bool {
    orders_part(keys, desc, 0, keys.len() as int, p)
}

/// A list whose positions stand in a strict order.
trait Ranked {
    /// Number of positions.
    spec fn size(&self) -> nat;

    /// Position `a` comes before position `b`.
    spec fn before(&self, a: int, b: int) -> bool;

    /// Of two positions one comes first.
    proof fn lemma_total(&self, a: int, b: int)
        requires
            0 <= a < self.size(),
            0 <= b < self.size(),
            a != b,
        ensures
            self.before(a, b) != self.before(b, a),
    ;

    proof fn lemma_transitive(&self, a: int, b: int, c: int)
        requires
            0 <= a < self.size(),
            0 <= b < self.size(),
            0 <= c < self.size(),
            self.before(a, b),
            self.before(b, c),
        ensures
            self.before(a, c),
    ;

    fn is_before(&self, a: usize, b: usize) -> (r: bool)
        requires
            a < self.size(),
            b < self.size(),
        ensures
            r == self.before(a as int, b as int),
    ;
}

/// `p` holds the positions `[lo, hi)` in order, each once.
spec fn arranges_part<R: Ranked>(r: R, lo: int, hi: int, p: Seq<usize>) -> bool {
    &&& p.len() == hi - lo
    &&& forall|i: int| 0 <= i < p.len() ==> lo <= #[trigger] p[i] < hi
    &&& forall|i: int, j: int|
        0 <= i < j < p.len() ==> r.before(#[trigger] p[i] as int, #[trigger] p[j] as int)
    &&& forall|x: int| lo <= x < hi ==> #[trigger] holds(p, x)
}

fn merge<R: Ranked>(r: &R, a: &Vec<usize>, b: &Vec<usize>, lo: usize, mid: usize, hi: usize) -> (out: Vec<
    usize,
>)
    requires
        lo <= mid <= hi <= r.size(),
        arranges_part(*r, lo as int, mid as int, a@),
        arranges_part(*r, mid as int, hi as int, b@),
    ensures
        arranges_part(*r, lo as int, hi as int, out@),
{
    let mut out: Vec<usize> = Vec::new();
    let mut i: usize = 0;
    let mut j: usize = 0;
    while i < a.len() || j < b.len()
        invariant
            lo <= mid <= hi <= r.size(),
            arranges_part(*r, lo as int, mid as int, a@),
            arranges_part(*r, mid as int, hi as int, b@),
            i <= a@.len(),
            j <= b@.len(),
            out@.len() == i + j,
            forall|k: int| 0 <= k < out@.len() ==> lo <= #[trigger] out@[k] < hi,
            forall|k: int, l: int|
                0 <= k < l < out@.len() ==> r.before(
                    #[trigger] out@[k] as int,
                    #[trigger] out@[l] as int,
                ),
            forall|k: int, l: int|
                0 <= k < out@.len() && i <= l < a@.len() ==> r.before(
                    #[trigger] out@[k] as int,
                    #[trigger] a@[l] as int,
                ),
            forall|k: int, l: int|
                0 <= k < out@.len() && j <= l < b@.len() ==> r.before(
                    #[trigger] out@[k] as int,
                    #[trigger] b@[l] as int,
                ),
            forall|l: int| 0 <= l < i ==> holds(out@, #[trigger] a@[l] as int),
            forall|l: int| 0 <= l < j ==> holds(out@, #[trigger] b@[l] as int),
        decreases a@.len() - i + b@.len() - j,
    {
        let from_a = if i >= a.len() {
            false
        } else if j >= b.len() {
            true
        } else {
            r.is_before(a[i], b[j])
        };
        let ghost before = out@;
        let next: usize = if from_a {
            a[i]
        } else {
            b[j]
        };
        proof {
            if from_a {
                assert forall|l: int| j <= l < b@.len() implies r.before(
                    next as int,
                    #[trigger] b@[l] as int,
                ) by {
                    if l > j {
                        r.lemma_transitive(next as int, b@[j as int] as int, b@[l] as int);
                    }
                }
            } else {
                assert forall|l: int| i <= l < a@.len() implies r.before(
                    next as int,
                    #[trigger] a@[l] as int,
                ) by {
                    r.lemma_total(a@[i as int] as int, next as int);
                    if l > i {
                        r.lemma_transitive(next as int, a@[i as int] as int, a@[l] as int);
                    }
                }
            }
        }
        out.push(next);
        proof {
            lemma_held_push(before, next);
        }
        if from_a {
            i = i + 1;
        } else {
            j = j + 1;
        }
    }
    assert forall|x: int| lo <= x < hi implies #[trigger] holds(out@, x) by {
        if x < mid {
            assert(holds(a@, x));
            let w = choose|w: int| 0 <= w < a@.len() && #[trigger] a@[w] == x;
            assert(holds(out@, a@[w] as int));
        } else {
            assert(holds(b@, x));
            let w = choose|w: int| 0 <= w < b@.len() && #[trigger] b@[w] == x;
            assert(holds(out@, b@[w] as int));
        }
    }
    out
}

fn arrange_part<R: Ranked>(r: &R, lo: usize, hi: usize) -> (out: Vec<usize>)
    requires
        lo <= hi <= r.size(),
    ensures
        arranges_part(*r, lo as int, hi as int, out@),
    decreases hi - lo,
{
    let mut out: Vec<usize> = Vec::new();
    if hi - lo == 0 {
        return out;
    }
    if hi - lo == 1 {
        out.push(lo);
        assert(out@[0] == lo);
        return out;
    }
    let mid: usize = lo + (hi - lo) / 2;
    let a = arrange_part(r, lo, mid);
    let b = arrange_part(r, mid, hi);
    merge(r, &a, &b, lo, mid, hi)
}

/// Positions by their keys.
struct ByKey<'a> {
    keys: &'a Vec<i128>,
    desc: bool,
}

impl<'a> Ranked for ByKey<'a> {
    spec fn size(&self) -> nat {
        self.keys@.len()
    }

    spec fn before(&self, a: int, b: int) -> bool {
        comes_before(self.keys@, self.desc, a, b)
    }

    proof fn lemma_total(&self, a: int, b: int) {
    }

    proof fn lemma_transitive(&self, a: int, b: int, c: int) {
    }

    fn is_before(&self, a: usize, b: usize) -> (r: bool) {
        let x = self.keys[a];
        let y = self.keys[b];
        if x == y {
            a < b
        } else if self.desc {
            x > y
        } else {
            x < y
        }
    }
}

/// The stable order of a list of keys, smallest first, or largest first.
pub fn order(keys: &Vec<i128>, desc: bool) -> (r: Vec<usize>)
    ensures
        orders(keys@, desc, r@),
{
    let by = ByKey { keys, desc };
    arrange_part(&by, 0, keys.len())
}

/// What a row is sorted by: a number, then a text, then a number.
pub struct RowKey {
    pub first: i128,
    pub text: String,
    pub last: i128,
}

impl View for RowKey {
    type V = (int, Seq<char>, int);

    open spec fn view(&self) -> (int, Seq<char>, int) {
        (self.first as int, self.text@, self.last as int)
    }
}

pub open spec fn row_keys(keys: Seq<RowKey>) -> Seq<(int, Seq<char>, int)> {
    keys.map_values(|k: RowKey| k@)
}

/// Row `a` comes before row `b`: by their keys, smaller first, and by position
/// where these are equal.
pub open spec fn row_before(keys: Seq<(int, Seq<char>, int)>, a: int, b: int) -> bool {
    if keys[a].0 != keys[b].0 {
        keys[a].0 < keys[b].0
    } else if keys[a].1 != keys[b].1 {
        text_less(keys[a].1, keys[b].1)
    } else if keys[a].2 != keys[b].2 {
        keys[a].2 < keys[b].2
    } else {
        a < b
    }
}

/// `p` is the stable order of the rows: every position once, sorted by key.
pub open spec fn sorts(keys: Seq<(int, Seq<char>, int)>, p: Seq<usize>) -> bool {
    &&& p.len() == keys.len()
    &&& forall|i: int| 0 <= i < p.len() ==> 0 <= #[trigger] p[i] < keys.len()
    &&& forall|i: int, j: int|
        0 <= i < j < p.len() ==> row_before(keys, #[trigger] p[i] as int, #[trigger] p[j] as int)
    &&& forall|x: int| 0 <= x < keys.len() ==> #[trigger] holds(p, x)
}

/// Rows by their keys.
struct ByRow<'a> {
    keys: &'a Vec<RowKey>,
}

impl<'a> Ranked for ByRow<'a> {
    spec fn size(&self) -> nat {
        self.keys@.len()
    }

    spec fn before(&self, a: int, b: int) -> bool {
        row_before(row_keys(self.keys@), a, b)
    }

    proof fn lemma_total(&self, a: int, b: int) {
        let x = self.keys@[a].text@;
        let y = self.keys@[b].text@;
        lemma_less_total(x, y);
        if text_less(x, y) && text_less(y, x) {
            lemma_less_transitive(x, y, x);
            lemma_less_irreflexive(x);
        }
    }

    proof fn lemma_transitive(&self, a: int, b: int, c: int) {
        let x = self.keys@[a].text@;
        let y = self.keys@[b].text@;
        let z = self.keys@[c].text@;
        if text_less(x, y) && text_less(y, z) {
            lemma_less_transitive(x, y, z);
            lemma_less_irreflexive(x);
        }
    }

    fn is_before(&self, a: usize, b: usize) -> (r: bool) {
        let x = &self.keys[a];
        let y = &self.keys[b];
        if x.first != y.first {
            x.first < y.first
        } else if !same(x.text.as_str(), y.text.as_str()) {
            less(x.text.as_str(), y.text.as_str())
        } else if x.last != y.last {
            x.last < y.last
        } else {
            a < b
        }
    }
}

/// The stable order of a list of rows.
pub fn sort_rows(keys: &Vec<RowKey>) -> (r: Vec<usize>)
    ensures
        sorts(row_keys(keys@), r@),
{
    let by = ByRow { keys };
    arrange_part(&by, 0, keys.len())
}

/// `q` holds what `p` holds, in the order `o`.
pub open spec fn picks<T>(p: Seq<T>, o: Seq<usize>, q: Seq<T>) -> bool {
    &&& q.len() == o.len()
    &&& forall|i: int| 0 <= i < q.len() ==> #[trigger] q[i] == p[o[i] as int]
}

/// The positions `p` in the order `o`.
pub fn pick(p: &Vec<usize>, o: &Vec<usize>) -> (q: Vec<usize>)
    requires
        forall|i: int| 0 <= i < o@.len() ==> (#[trigger] o@[i]) < p@.len(),
    ensures
        picks(p@, o@, q@),
{
    let mut q: Vec<usize> = Vec::new();
    let mut k: usize = 0;
    while k < o.len()
        invariant
            k <= o@.len(),
            forall|i: int| 0 <= i < o@.len() ==> (#[trigger] o@[i]) < p@.len(),
            q@.len() == k,
            forall|i: int| 0 <= i < k ==> #[trigger] q@[i] == p@[o@[i] as int],
        decreases o@.len() - k,
    {
        let at = o[k];
        q.push(p[at]);
        k = k + 1;
    }
    q
}

/// A list of keys has one stable order.
pub proof fn lemma_order_unique(keys: Seq<i128>, desc: bool, p: Seq<usize>, q: Seq<usize>)
    requires
        orders(keys, desc, p),
        orders(keys, desc, q),
    ensures
        p == q,
{
    lemma_order_prefix(keys, desc, p, q, p.len() as int);
    assert(p =~= q);
}

proof fn lemma_order_prefix(keys: Seq<i128>, desc: bool, p: Seq<usize>, q: Seq<usize>, n: int)
    requires
        orders(keys, desc, p),
        orders(keys, desc, q),
        0 <= n <= p.len(),
    ensures
        forall|i: int| 0 <= i < n ==> p[i] == q[i],
    decreases n,
{
    if n > 0 {
        lemma_order_prefix(keys, desc, p, q, n - 1);
        let k = n - 1;
        assert(holds(q, p[k] as int));
        let w = choose|w: int| 0 <= w < q.len() && #[trigger] q[w] == p[k];
        assert(holds(p, q[k] as int));
        let v = choose|v: int| 0 <= v < p.len() && #[trigger] p[v] == q[k];
        if w < k {
            assert(p[w] == q[w]);
            assert(comes_before(keys, desc, p[w] as int, p[k] as int));
        }
        if v < k {
            assert(q[v] == p[v]);
            assert(comes_before(keys, desc, q[v] as int, q[k] as int));
        }
        if w > k && v > k {
            assert(comes_before(keys, desc, q[k] as int, q[w] as int));
            assert(comes_before(keys, desc, p[k] as int, p[v] as int));
        }
    }
}

/// The positions without the one that stands at `at`.
pub proof fn lemma_removed(before: Seq<usize>, after: Seq<usize>, at: int)
    requires
        0 <= at < before.len(),
        after == before.remove(at),
        forall|i: int, j: int| 0 <= i < j < before.len() ==> (#[trigger] before[i]) < (#[trigger] before[j]),
    ensures
        forall|x: int| #[trigger] holds(after, x) <==> holds(before, x) && x != before[at],
        forall|i: int, j: int| 0 <= i < j < after.len() ==> (#[trigger] after[i]) < (#[trigger] after[j]),
{
    assert forall|x: int| #[trigger] holds(after, x) <==> holds(before, x) && x != before[at] by {
        if holds(after, x) {
            let w = choose|w: int| 0 <= w < after.len() && #[trigger] after[w] == x;
            if w < at {
                assert(before[w] == x);
                assert(before[w] < before[at]);
            } else {
                assert(before[w + 1] == x);
                assert(before[at] < before[w + 1]);
            }
        }
        if holds(before, x) && x != before[at] {
            let w = choose|w: int| 0 <= w < before.len() && #[trigger] before[w] == x;
            if w < at {
                assert(after[w] == x);
            } else {
                assert(after[w - 1] == x);
            }
        }
    }
    assert forall|i: int, j: int| 0 <= i < j < after.len() implies (#[trigger] after[i]) < (
    #[trigger] after[j]) by {
        let a = if i < at {
            i
        } else {
            i + 1
        };
        let b = if j < at {
            j
        } else {
            j + 1
        };
        assert(before[a] < before[b]);
    }
}

/// One more position.
pub proof fn lemma_held_push(before: Seq<usize>, k: usize)
    ensures
        forall|x: int| #[trigger] holds(before.push(k), x) <==> (holds(before, x) || x == k),
{
    let after = before.push(k);
    assert forall|x: int| #[trigger] holds(after, x) <==> (holds(before, x) || x == k) by {
        assert(after[before.len() as int] == k);
        if holds(before, x) {
            let w = choose|w: int| 0 <= w < before.len() && #[trigger] before[w] == x;
            assert(after[w] == x);
        }
        if holds(after, x) && x != k {
            let w = choose|w: int| 0 <= w < after.len() && #[trigger] after[w] == x;
            assert(before[w] == x);
        }
    }
}

} // verus!
