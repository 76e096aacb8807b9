//! The call tree: where time is counted, which nodes are shown, and in what
//! order.

use vstd::prelude::*;
use crate::analysis::common::total;
use crate::analysis::cpu::{ProfileNodes, ProfileSelfTimes, SUM_BOUND};
use crate::matcher::{matches_text, Matcher};
use crate::sort::{comes_before, holds, orders};
use crate::windowed::calltree::{
    above,
    all_rows,
    below_time,
    calltree_of,
    depth,
    forest_ok,
    forest_rows,
    inclusive,
    inclusive_keys,
    is_by_time,
    kept_rows,
    kids,
    kids_listed,
    lemma_one_above,
    lemma_parent_depth,
    lemma_part_of_all,
    parents_ok,
    places,
    shown,
    tree_rows,
    up,
    CallTree,
    Forest,
};

verus! {

/// So many steps from callee to caller lead from `i` to `a`.
pub open spec fn leads(parent: Seq<Option<usize>>, i: int, a: int, s: nat) -> bool
    decreases s,
{
    if s == 0 {
        i == a
    } else {
        parent[i] is Some && leads(parent, parent[i]->0 as int, a, (s - 1) as nat)
    }
}

/// Node `a` is `i` itself, or calls it, directly or not.
pub open spec fn calls(parent: Seq<Option<usize>>, a: int, i: int) -> bool {
    exists|s: nat| #[trigger] leads(parent, i, a, s)
}

proof fn lemma_leads(parent: Seq<Option<usize>>, i: int, a: int, s: nat)
    requires
        a >= 0,
    ensures
        leads(parent, i, a, s) <==> up(parent, i, s) == a,
    decreases s,
{
    if s > 0 && parent[i] is Some {
        lemma_leads(parent, parent[i]->0 as int, a, (s - 1) as nat);
    }
}

/// Where steps lead, and how deep that lies.
proof fn lemma_up_depth(parent: Seq<Option<usize>>, i: int, s: nat)
    requires
        parents_ok(parent),
        0 <= i < parent.len(),
        depth(parent, i) is Some,
    ensures
        s <= depth(parent, i)->0 ==> 0 <= up(parent, i, s) < parent.len() && depth(parent, up(parent, i, s))
            == Some((depth(parent, i)->0 - s) as nat),
        s > depth(parent, i)->0 ==> up(parent, i, s) == -1,
    decreases s,
{
    if s > 0 {
        if parent[i] is Some {
            lemma_parent_depth(parent, i);
            lemma_up_depth(parent, parent[i]->0 as int, (s - 1) as nat);
        } else {
            assert(depth(parent, i) == Some(0nat));
        }
    }
}

proof fn lemma_up_sum(parent: Seq<Option<usize>>, i: int, s: nat, t: nat)
    requires
        up(parent, i, s) >= 0,
    ensures
        up(parent, i, s + t) == up(parent, up(parent, i, s), t),
    decreases s,
{
    if s > 0 {
        assert(parent[i] is Some);
        lemma_up_sum(parent, parent[i]->0 as int, (s - 1) as nat, t);
        assert((s + t - 1) as nat == (s - 1) as nat + t);
    }
}

/// Among nodes whose callers lead to a root, to stand above is to call.
pub proof fn lemma_above(parent: Seq<Option<usize>>, a: int, i: int)
    requires
        parents_ok(parent),
        0 <= i < parent.len(),
        0 <= a < parent.len(),
        depth(parent, i) is Some,
    ensures
        above(parent, a, i) <==> calls(parent, a, i),
{
    if above(parent, a, i) {
        if depth(parent, a) is Some {
            let s = (depth(parent, i)->0 - depth(parent, a)->0) as nat;
            lemma_leads(parent, i, a, s);
            assert(leads(parent, i, a, s));
        } else {
            assert(leads(parent, i, a, 0));
        }
    }
    if calls(parent, a, i) {
        let s = choose|s: nat| #[trigger] leads(parent, i, a, s);
        lemma_leads(parent, i, a, s);
        lemma_up_depth(parent, i, s);
    }
}

proof fn lemma_above_trans(parent: Seq<Option<usize>>, a: int, b: int, c: int)
    requires
        parents_ok(parent),
        0 <= c < parent.len(),
        depth(parent, c) is Some,
        depth(parent, b) is Some,
        depth(parent, a) is Some,
        0 <= b < parent.len(),
        above(parent, a, b),
        above(parent, b, c),
    ensures
        above(parent, a, c),
{
    let s = (depth(parent, c)->0 - depth(parent, b)->0) as nat;
    let t = (depth(parent, b)->0 - depth(parent, a)->0) as nat;
    lemma_up_sum(parent, c, s, t);
}

proof fn lemma_above_both(parent: Seq<Option<usize>>, a: int, b: int, c: int)
    requires
        parents_ok(parent),
        0 <= c < parent.len(),
        0 <= a < parent.len(),
        0 <= b < parent.len(),
        depth(parent, c) is Some,
        depth(parent, b) is Some,
        depth(parent, a) is Some,
        above(parent, a, c),
        above(parent, b, c),
        depth(parent, a)->0 <= depth(parent, b)->0,
    ensures
        above(parent, a, b),
{
    let s = (depth(parent, c)->0 - depth(parent, b)->0) as nat;
    let t = (depth(parent, b)->0 - depth(parent, a)->0) as nat;
    lemma_up_sum(parent, c, s, t);
}

/// Time that a node takes itself is counted in it and in all its callers, and
/// nowhere else: with `t` more in node `i`, those have `t` more and the others
/// what they had.
pub proof fn lemma_time_goes_up(f: Forest, g: Forest, i: int, t: int, a: int)
    requires
        parents_ok(f.parent@),
        g.parent@ == f.parent@,
        f.own@.len() == f.parent@.len(),
        g.own@.len() == f.parent@.len(),
        f.parent@.len() <= usize::MAX,
        0 <= i < f.parent@.len(),
        0 <= a < f.parent@.len(),
        depth(f.parent@, i) is Some,
        forall|j: int| 0 <= j < f.parent@.len() && j != i ==> g.own@[j] == #[trigger] f.own@[j],
        g.own@[i] == f.own@[i] + t,
    ensures
        calls(f.parent@, a, i) ==> inclusive(g, a) == inclusive(f, a) + t,
        !calls(f.parent@, a, i) ==> inclusive(g, a) == inclusive(f, a),
{
    lemma_above(f.parent@, a, i);
    lemma_time_part(f, g, i, t, a, f.parent@.len() as int);
    assert(places(f.parent@.len()).take(f.parent@.len() as int) =~= places(f.parent@.len()));
}

proof fn lemma_time_part(f: Forest, g: Forest, i: int, t: int, a: int, k: int)
    requires
        g.parent@ == f.parent@,
        f.own@.len() == f.parent@.len(),
        g.own@.len() == f.parent@.len(),
        f.parent@.len() <= usize::MAX,
        0 <= k <= f.parent@.len(),
        0 <= i < f.parent@.len(),
        forall|j: int| 0 <= j < f.parent@.len() && j != i ==> g.own@[j] == #[trigger] f.own@[j],
        g.own@[i] == f.own@[i] + t,
    ensures
        total(places(f.parent@.len()).take(k), below_time(g, a)) == total(
            places(f.parent@.len()).take(k),
            below_time(f, a),
        ) + if i < k && above(f.parent@, a, i) {
            t
        } else {
            0
        },
    decreases k,
{
    if k > 0 {
        lemma_time_part(f, g, i, t, a, k - 1);
        let all = places(f.parent@.len());
        assert(all.take(k).drop_last() =~= all.take(k - 1));
        assert(all.take(k).last() == k - 1);
        if k - 1 != i {
            assert(g.own@[k - 1] == f.own@[k - 1]);
        }
    }
}

/// Where nothing takes time of its own, no time is counted.
pub proof fn lemma_no_time(f: Forest, a: int)
    requires
        forall|j: int| 0 <= j < f.parent@.len() ==> #[trigger] f.own@[j] == 0,
        f.parent@.len() <= usize::MAX,
    ensures
        inclusive(f, a) == 0,
{
    let all = places(f.parent@.len());
    assert forall|i: int| 0 <= i < all.len() implies below_time(f, a)(#[trigger] all[i]) == 0 by {
        assert(f.own@[i] == 0);
    }
    crate::laws::sums::lemma_total_zero(all, below_time(f, a));
}

/// Any list of numbers can be put into order.
proof fn lemma_order_exists(keys: Seq<i128>, desc: bool)
    requires
        keys.len() <= usize::MAX,
    ensures
        exists|p: Seq<usize>| #[trigger] orders(keys, desc, p),
    decreases keys.len(),
{
    if keys.len() == 0 {
        assert(orders(keys, desc, Seq::<usize>::empty()));
    } else {
        let n = keys.len() - 1;
        let less = keys.drop_last();
        lemma_order_exists(less, desc);
        let p = choose|p: Seq<usize>| #[trigger] orders(less, desc, p);
        assert forall|i: int, j: int| 0 <= i < j < p.len() implies comes_before(
            keys,
            desc,
            #[trigger] p[i] as int,
            #[trigger] p[j] as int,
        ) by {
            assert(comes_before(less, desc, p[i] as int, p[j] as int));
        }
        let k = lemma_place(keys, desc, p, n, p.len() as int);
        let q = p.insert(k, n as usize);
        assert forall|i: int| 0 <= i < q.len() implies 0 <= #[trigger] q[i] < keys.len() by {
            if i < k {
                assert(q[i] == p[i]);
            } else if i > k {
                assert(q[i] == p[i - 1]);
            }
        }
        assert forall|i: int, j: int| 0 <= i < j < q.len() implies comes_before(
            keys,
            desc,
            #[trigger] q[i] as int,
            #[trigger] q[j] as int,
        ) by {
            let a = if i < k {
                i
            } else {
                i - 1
            };
            let b = if j < k {
                j
            } else {
                j - 1
            };
            if i == k {
                assert(q[j] == p[b]);
                assert(!comes_before(keys, desc, p[b] as int, n));
                assert(p[b] < n);
            } else if j == k {
                assert(q[i] == p[a]);
                assert(comes_before(keys, desc, p[a] as int, n));
            } else {
                assert(q[i] == p[a] && q[j] == p[b]);
                assert(comes_before(keys, desc, p[a] as int, p[b] as int));
            }
        }
        assert forall|x: int| 0 <= x < keys.len() implies #[trigger] holds(q, x) by {
            if x == n {
                assert(q[k] == x);
            } else {
                assert(holds(p, x));
                let w = choose|w: int| 0 <= w < p.len() && #[trigger] p[w] == x;
                assert(q[if w < k {
                    w
                } else {
                    w + 1
                }] == x);
            }
        }
        assert(orders(keys, desc, q));
    }
}

/// The place in an ordered list up to which all come before `n`.
proof fn lemma_place(keys: Seq<i128>, desc: bool, p: Seq<usize>, n: int, m: int) -> (k: int)
    requires
        0 <= m <= p.len(),
        0 <= n < keys.len(),
        forall|i: int| 0 <= i < p.len() ==> (#[trigger] p[i]) < n,
        forall|i: int, j: int|
            0 <= i < j < p.len() ==> comes_before(keys, desc, #[trigger] p[i] as int, #[trigger] p[j] as int),
        forall|i: int| m <= i < p.len() ==> !comes_before(keys, desc, #[trigger] p[i] as int, n),
    ensures
        0 <= k <= p.len(),
        forall|i: int| 0 <= i < k ==> comes_before(keys, desc, #[trigger] p[i] as int, n),
        forall|i: int| k <= i < p.len() ==> !comes_before(keys, desc, #[trigger] p[i] as int, n),
    decreases m,
{
    if m > 0 && !comes_before(keys, desc, p[m - 1] as int, n) {
        lemma_place(keys, desc, p, n, m - 1)
    } else {
        assert forall|i: int| 0 <= i < m implies comes_before(keys, desc, #[trigger] p[i] as int, n) by {
            if i < m - 1 {
                assert(comes_before(keys, desc, p[i] as int, p[m - 1] as int));
            }
        }
        m
    }
}

proof fn lemma_kids_listed(f: Forest, p: Option<usize>, n: int)
    requires
        0 <= n <= f.parent@.len(),
        f.parent@.len() <= usize::MAX,
    ensures
        kids_listed(f, p, n).len() <= n,
        forall|k: int|
            0 <= k < kids_listed(f, p, n).len() ==> (#[trigger] kids_listed(f, p, n)[k]) < n && f.parent@[kids_listed(
                f,
                p,
                n,
            )[k] as int] == p && shown(f, kids_listed(f, p, n)[k] as int),
        forall|i: int, j: int|
            0 <= i < j < kids_listed(f, p, n).len() ==> (#[trigger] kids_listed(f, p, n)[i]) < (
            #[trigger] kids_listed(f, p, n)[j]),
        forall|x: int|
            0 <= x < n && f.parent@[x] == p && #[trigger] shown(f, x) ==> holds(kids_listed(f, p, n), x),
    decreases n,
{
    if n > 0 {
        lemma_kids_listed(f, p, n - 1);
        let before = kids_listed(f, p, n - 1);
        let list = kids_listed(f, p, n);
        assert forall|k: int| 0 <= k < list.len() implies (#[trigger] list[k]) < n && f.parent@[list[k] as int] == p
            && shown(f, list[k] as int) by {
            if k < before.len() {
                assert(list[k] == before[k]);
            }
        }
        assert forall|i: int, j: int| 0 <= i < j < list.len() implies (#[trigger] list[i]) < (#[trigger] list[j]) by {
            assert(list[i] == before[i]);
            if j < before.len() {
                assert(list[j] == before[j]);
            }
        }
        assert forall|x: int| 0 <= x < n && f.parent@[x] == p && #[trigger] shown(f, x) implies holds(list, x) by {
            if x < n - 1 {
                assert(holds(before, x));
                let w = choose|w: int| 0 <= w < before.len() && #[trigger] before[w] == x;
                assert(list[w] == x);
            } else {
                assert(list[before.len() as int] == x);
            }
        }
    }
}

/// Different shown nodes with the same caller, those with the most time first.
spec fn siblings(f: Forest, p: Option<usize>, list: Seq<usize>) -> bool {
    &&& forall|k: int|
        0 <= k < list.len() ==> (#[trigger] list[k]) < f.parent@.len() && f.parent@[list[k] as int] == p && shown(
            f,
            list[k] as int,
        )
    &&& forall|i: int, j: int|
        0 <= i < j < list.len() ==> (#[trigger] list[i]) != (#[trigger] list[j]) && inclusive(f, list[i] as int)
            >= inclusive(f, list[j] as int)
}

proof fn lemma_inclusive_fits(f: Forest, a: int)
    requires
        forest_ok(f),
    ensures
        0 <= inclusive(f, a) <= SUM_BOUND,
{
    let n = f.parent@.len() as int;
    lemma_part_of_all(f, a, n);
    assert(places(n as nat).take(n) =~= places(n as nat));
}

proof fn lemma_kids(f: Forest, p: Option<usize>)
    requires
        forest_ok(f),
    ensures
        siblings(f, p, kids(f, p)),
        forall|x: int|
            0 <= x < f.parent@.len() && f.parent@[x] == p && #[trigger] shown(f, x) ==> holds(kids(f, p), x),
{
    let list = kids_listed(f, p, f.parent@.len() as int);
    lemma_kids_listed(f, p, f.parent@.len() as int);
    let keys = inclusive_keys(f, list);
    lemma_order_exists(keys, true);
    let o = choose|o: Seq<usize>| #[trigger] orders(keys, true, o);
    let s = Seq::new(o.len(), |i: int| list[o[i] as int]);
    assert(is_by_time(f, list, s));
    let r = kids(f, p);
    assert(is_by_time(f, list, r));
    let q = choose|q: Seq<usize>|
        {
            &&& #[trigger] orders(inclusive_keys(f, list), true, q)
            &&& r.len() == q.len()
            &&& forall|i: int| 0 <= i < r.len() ==> #[trigger] r[i] == list[q[i] as int]
        };
    assert forall|k: int| 0 <= k < r.len() implies (#[trigger] r[k]) < f.parent@.len() && f.parent@[r[k] as int] == p
        && shown(f, r[k] as int) by {
        assert(r[k] == list[q[k] as int]);
    }
    assert forall|i: int, j: int| 0 <= i < j < r.len() implies (#[trigger] r[i]) != (#[trigger] r[j]) && inclusive(
        f,
        r[i] as int,
    ) >= inclusive(f, r[j] as int) by {
        assert(comes_before(keys, true, q[i] as int, q[j] as int));
        let (x, y) = (q[i] as int, q[j] as int);
        if x < y {
            assert(list[x] < list[y]);
        } else {
            assert(list[y] < list[x]);
        }
        lemma_inclusive_fits(f, r[i] as int);
        lemma_inclusive_fits(f, r[j] as int);
        assert(keys[x] == inclusive(f, r[i] as int));
        assert(keys[y] == inclusive(f, r[j] as int));
    }
    assert forall|x: int| 0 <= x < f.parent@.len() && f.parent@[x] == p && #[trigger] shown(f, x) implies holds(
        r,
        x,
    ) by {
        assert(holds(list, x));
        let w = choose|w: int| 0 <= w < list.len() && #[trigger] list[w] == x;
        assert(holds(q, w));
        let v = choose|v: int| 0 <= v < q.len() && #[trigger] q[v] == w;
        assert(r[v] == x);
    }
}

/// The rows hold the node.
pub open spec fn has_row(rows: Seq<(usize, usize)>, x: int) -> bool {
    exists|k: int| 0 <= k < rows.len() && (#[trigger] rows[k]).0 == x
}

/// A row stands for a shown node at its depth.
spec fn row_ok(f: Forest, r: (usize, usize)) -> bool {
    r.0 < f.parent@.len() && shown(f, r.0 as int) && depth(f.parent@, r.0 as int) == Some(r.1 as nat)
}

/// Of two rows with the same caller the first has no less time.
pub open spec fn by_caller(f: Forest, rows: Seq<(usize, usize)>) -> bool {
    forall|i: int, j: int|
        0 <= i < j < rows.len() && f.parent@[(#[trigger] rows[i]).0 as int] == f.parent@[(#[trigger] rows[j]).0 as int]
            ==> inclusive(f, rows[i].0 as int) >= inclusive(f, rows[j].0 as int)
}

/// What is called below a shown node and is shown hangs on shown nodes.
proof fn lemma_path_shown(f: Forest, c: int, x: int)
    requires
        forest_ok(f),
        0 <= c < f.parent@.len(),
        0 <= x < f.parent@.len(),
        shown(f, x),
        depth(f.parent@, c) is Some,
        above(f.parent@, c, x),
    ensures
        shown(f, c),
{
    let parent = f.parent@;
    let m = choose|m: int|
        0 <= m < f.parent@.len() && #[trigger] f.matched@[m] && (above(f.parent@, x, m) || above(f.parent@, m, x));
    if above(parent, x, m) {
        if depth(parent, m) is Some {
            lemma_above_trans(parent, c, x, m);
        }
        assert(above(parent, c, m));
    } else {
        assert(depth(parent, m) is Some);
        if depth(parent, m)->0 <= depth(parent, c)->0 {
            lemma_above_both(parent, m, c, x);
        } else {
            lemma_above_both(parent, c, m, x);
        }
    }
    assert(f.matched@[m]);
}

/// The child of `i` that calls `x`.
proof fn lemma_child(f: Forest, i: int, x: int) -> (c: int)
    requires
        forest_ok(f),
        0 <= i < f.parent@.len(),
        0 <= x < f.parent@.len(),
        i != x,
        depth(f.parent@, i) is Some,
        depth(f.parent@, x) is Some,
        above(f.parent@, i, x),
    ensures
        0 <= c < f.parent@.len(),
        f.parent@[c] == Some(i as usize),
        depth(f.parent@, c) == Some(depth(f.parent@, i)->0 + 1),
        above(f.parent@, c, x),
{
    let parent = f.parent@;
    let s = (depth(parent, x)->0 - depth(parent, i)->0) as nat;
    assert(s > 0);
    let c = up(parent, x, (s - 1) as nat);
    lemma_up_depth(parent, x, (s - 1) as nat);
    lemma_up_sum(parent, x, (s - 1) as nat, 1);
    assert(up(parent, c, 1) == i);
    assert(parent[c] is Some) by {
        if parent[c] is None {
            assert(up(parent, c, 1) == -1);
        }
    }
    assert(up(parent, parent[c]->0 as int, 0) == i);
    c
}

proof fn lemma_depth_bound(parent: Seq<Option<usize>>, i: int)
    requires
        parents_ok(parent),
        0 <= i < parent.len(),
        depth(parent, i) is Some,
    ensures
        depth(parent, i)->0 <= parent.len(),
        parent[i] is None <==> depth(parent, i)->0 == 0,
{
    if parent[i] is Some {
        lemma_parent_depth(parent, i);
    }
}

proof fn lemma_tree(f: Forest, i: usize, d: int)
    requires
        forest_ok(f),
        i < f.parent@.len(),
        shown(f, i as int),
        0 <= d,
        depth(f.parent@, i as int) == Some(d as nat),
    ensures
        forall|k: int|
            0 <= k < tree_rows(f, i, d).len() ==> row_ok(f, #[trigger] tree_rows(f, i, d)[k]) && above(
                f.parent@,
                i as int,
                tree_rows(f, i, d)[k].0 as int,
            ),
        forall|x: int|
            0 <= x < f.parent@.len() && #[trigger] shown(f, x) && above(f.parent@, i as int, x) ==> has_row(
                tree_rows(f, i, d),
                x,
            ),
        by_caller(f, tree_rows(f, i, d)),
    decreases f.parent@.len() + 1 - d, 0int,
{
    let parent = f.parent@;
    lemma_depth_bound(parent, i as int);
    let list = kids(f, Some(i));
    let rest = forest_rows(f, list, d + 1);
    let rows = tree_rows(f, i, d);
    assert(rows == seq![(i, d as usize)] + rest);
    lemma_kids(f, Some(i));
    assert forall|k: int| 0 <= k < list.len() implies depth(parent, #[trigger] list[k] as int) == Some(
        (d + 1) as nat,
    ) by {
        lemma_parent_depth(parent, list[k] as int);
    }
    lemma_forest(f, Some(i), list, d + 1);
    assert forall|k: int| 0 <= k < rows.len() implies row_ok(f, #[trigger] rows[k]) && above(
        parent,
        i as int,
        rows[k].0 as int,
    ) && (k > 0 ==> rows[k].1 > d) by {
        if k > 0 {
            assert(rows[k] == rest[k - 1]);
            let m = choose|m: int| 0 <= m < list.len() && #[trigger] above(parent, list[m] as int, rest[k - 1].0 as int);
            assert(up(parent, list[m] as int, 1) == up(parent, i as int, 0));
            assert(above(parent, i as int, list[m] as int));
            lemma_above_trans(parent, i as int, list[m] as int, rest[k - 1].0 as int);
        } else {
            assert(up(parent, i as int, 0) == i);
        }
    }
    assert forall|x: int| 0 <= x < parent.len() && #[trigger] shown(f, x) && above(parent, i as int, x) implies has_row(
        rows,
        x,
    ) by {
        if x == i {
            assert(rows[0].0 == x);
        } else {
            let c = lemma_child(f, i as int, x);
            lemma_path_shown(f, c, x);
            assert(holds(list, c));
            let m = choose|m: int| 0 <= m < list.len() && #[trigger] list[m] == c;
            assert(above(parent, list[m] as int, x));
            assert(has_row(rest, x));
            let k = choose|k: int| 0 <= k < rest.len() && (#[trigger] rest[k]).0 == x;
            assert(rows[k + 1].0 == x);
        }
    }
    assert forall|a: int, b: int| 0 <= a < b < rows.len() && parent[(#[trigger] rows[a]).0 as int] == parent[(
    #[trigger] rows[b]).0 as int] implies inclusive(f, rows[a].0 as int) >= inclusive(f, rows[b].0 as int) by {
        let (x, y) = (rows[a].0 as int, rows[b].0 as int);
        if a == 0 {
            assert(rows[b].1 > d);
            lemma_depth_bound(parent, x);
            lemma_depth_bound(parent, y);
            if parent[x] is Some {
                lemma_parent_depth(parent, x);
                lemma_parent_depth(parent, y);
            }
            assert(false);
        } else {
            assert(rows[a] == rest[a - 1] && rows[b] == rest[b - 1]);
        }
    }
}

proof fn lemma_forest(f: Forest, p: Option<usize>, list: Seq<usize>, d: int)
    requires
        forest_ok(f),
        siblings(f, p, list),
        0 <= d,
        forall|k: int| 0 <= k < list.len() ==> depth(f.parent@, #[trigger] list[k] as int) == Some(d as nat),
    ensures
        forall|k: int|
            0 <= k < forest_rows(f, list, d).len() ==> row_ok(f, #[trigger] forest_rows(f, list, d)[k]) && exists|m: int|
                0 <= m < list.len() && #[trigger] above(
                    f.parent@,
                    list[m] as int,
                    forest_rows(f, list, d)[k].0 as int,
                ),
        forall|x: int, m: int|
            0 <= x < f.parent@.len() && #[trigger] shown(f, x) && 0 <= m < list.len() && above(
                f.parent@,
                #[trigger] list[m] as int,
                x,
            ) ==> has_row(forest_rows(f, list, d), x),
        by_caller(f, forest_rows(f, list, d)),
        forall|k: int| 0 <= k < forest_rows(f, list, d).len() ==> (#[trigger] forest_rows(f, list, d)[k]).1 >= d,
    decreases f.parent@.len() + 1 - d, list.len() + 1,
{
    let parent = f.parent@;
    if list.len() > 0 {
        lemma_depth_bound(parent, list[0] as int);
        let rest = list.drop_first();
        assert(siblings(f, p, rest)) by {
            assert forall|k: int| 0 <= k < rest.len() implies (#[trigger] rest[k]) < f.parent@.len()
                && f.parent@[rest[k] as int] == p && shown(f, rest[k] as int) by {
                assert(rest[k] == list[k + 1]);
            }
            assert forall|i: int, j: int| 0 <= i < j < rest.len() implies (#[trigger] rest[i]) != (#[trigger] rest[j])
                && inclusive(f, rest[i] as int) >= inclusive(f, rest[j] as int) by {
                assert(list[i + 1] != list[j + 1]);
            }
        }
        assert forall|k: int| 0 <= k < rest.len() implies depth(parent, #[trigger] rest[k] as int) == Some(
            d as nat,
        ) by {
            assert(rest[k] == list[k + 1]);
        }
        lemma_tree(f, list[0], d);
        lemma_forest(f, p, rest, d);
        let first = tree_rows(f, list[0], d);
        let more = forest_rows(f, rest, d);
        let rows = forest_rows(f, list, d);
        assert(rows == first + more);
        assert forall|k: int| 0 <= k < rows.len() implies row_ok(f, #[trigger] rows[k]) && rows[k].1 >= d && (exists|
            m: int,
        | 0 <= m < list.len() && #[trigger] above(parent, list[m] as int, rows[k].0 as int)) by {
            if k < first.len() {
                assert(rows[k] == first[k]);
                assert(above(parent, list[0] as int, rows[k].0 as int));
            } else {
                assert(rows[k] == more[k - first.len()]);
                let m = choose|m: int|
                    0 <= m < rest.len() && #[trigger] above(parent, rest[m] as int, more[k - first.len()].0 as int);
                assert(above(parent, list[m + 1] as int, rows[k].0 as int));
            }
        }
        assert forall|x: int, m: int| 0 <= x < parent.len() && #[trigger] shown(f, x) && 0 <= m < list.len() && above(
            parent,
            #[trigger] list[m] as int,
            x,
        ) implies has_row(rows, x) by {
            if m == 0 {
                assert(has_row(first, x));
                let k = choose|k: int| 0 <= k < first.len() && (#[trigger] first[k]).0 == x;
                assert(rows[k].0 == x);
            } else {
                assert(rest[m - 1] == list[m]);
                assert(has_row(more, x));
                let k = choose|k: int| 0 <= k < more.len() && (#[trigger] more[k]).0 == x;
                assert(rows[first.len() + k].0 == x);
            }
        }
        assert forall|a: int, b: int| 0 <= a < b < rows.len() && parent[(#[trigger] rows[a]).0 as int] == parent[(
        #[trigger] rows[b]).0 as int] implies inclusive(f, rows[a].0 as int) >= inclusive(f, rows[b].0 as int) by {
            if b < first.len() {
                assert(rows[a] == first[a] && rows[b] == first[b]);
            } else if a >= first.len() {
                assert(rows[a] == more[a - first.len()] && rows[b] == more[b - first.len()]);
            } else {
                assert(rows[a] == first[a] && rows[b] == more[b - first.len()]);
                let (x, y) = (rows[a].0 as int, rows[b].0 as int);
                let m = choose|m: int| 0 <= m < rest.len() && #[trigger] above(parent, rest[m] as int, y);
                let (u, v) = (list[0] as int, rest[m] as int);
                assert(list[0] != list[m + 1]);
                lemma_depth_bound(parent, x);
                lemma_depth_bound(parent, y);
                if parent[x] is Some {
                    lemma_parent_depth(parent, x);
                    lemma_parent_depth(parent, y);
                    let z = parent[x]->0 as int;
                    let dz = depth(parent, z)->0;
                    if dz >= d {
                        lemma_above_up(parent, u, x);
                        lemma_above_up(parent, v, y);
                        lemma_one_above(parent, u, v, z);
                    }
                }
                assert(depth(parent, x)->0 == d && depth(parent, y)->0 == d);
                assert(x == u && y == v);
                assert(inclusive(f, list[0] as int) >= inclusive(f, list[m + 1] as int));
            }
        }
    }
}

/// What stands above a node and not at its depth stands above its caller.
proof fn lemma_above_up(parent: Seq<Option<usize>>, a: int, x: int)
    requires
        parents_ok(parent),
        0 <= x < parent.len(),
        depth(parent, x) is Some,
        depth(parent, a) is Some,
        depth(parent, a)->0 < depth(parent, x)->0,
        parent[x] is Some,
        above(parent, a, x),
    ensures
        above(parent, a, parent[x]->0 as int),
{
    lemma_parent_depth(parent, x);
}

/// A node of the profile passes the filters: its function's name and its
/// address match, as far as asked for.
pub open spec fn meant(name: Option<&Matcher>, url: Option<&Matcher>, n: crate::analysis::cpu::ProfileNode) -> bool {
    &&& name matches Some(m) ==> matches_text(*m, n.name@)
    &&& url matches Some(m) ==> matches_text(*m, n.url@)
}

/// The callers of a node lead to a root, in so many steps.
pub open spec fn root_in(parent: Seq<Option<usize>>, i: int, s: nat) -> bool {
    exists|a: int| 0 <= a < parent.len() && #[trigger] leads(parent, i, a, s) && parent[a] is None
}

/// The rows of a call tree: no more than asked for. Each is a node that passes
/// the filters, or calls or is called by one that does, directly or not, at its
/// distance from a root. Where there is room every such node has a row. Of two
/// with the same caller the one with more time comes first.
pub proof fn lemma_rows(
    nodes: ProfileNodes,
    times: ProfileSelfTimes,
    name: Option<&Matcher>,
    url: Option<&Matcher>,
    top: usize,
    t: CallTree,
)
    requires
        calltree_of(nodes, times, name, url, top, t),
    ensures
        t.rows@.len() <= top,
        forall|k: int|
            0 <= k < t.rows@.len() ==> (#[trigger] t.rows@[k]).0 < nodes.listed().len() && wanted(
                nodes,
                name,
                url,
                t.forest.parent@,
                t.rows@[k].0 as int,
            ) && root_in(t.forest.parent@, t.rows@[k].0 as int, t.rows@[k].1 as nat),
        t.rows@.len() < top ==> forall|x: int|
            0 <= x < nodes.listed().len() && depth(t.forest.parent@, x) is Some && #[trigger] wanted(
                nodes,
                name,
                url,
                t.forest.parent@,
                x,
            ) ==> has_row(t.rows@, x),
        forall|i: int, j: int|
            0 <= i < j < t.rows@.len() && t.forest.parent@[(#[trigger] t.rows@[i]).0 as int] == t.forest.parent@[(
            #[trigger] t.rows@[j]).0 as int] ==> t.inclusive@[t.rows@[i].0 as int] >= t.inclusive@[t.rows@[j].0 as int],
{
    let f = t.forest;
    let parent = f.parent@;
    let list = kids(f, None);
    let all = all_rows(f);
    lemma_kids(f, None);
    assert forall|k: int| 0 <= k < list.len() implies depth(parent, #[trigger] list[k] as int) == Some(0nat) by {
        assert(parent[list[k] as int] is None);
    }
    lemma_forest(f, None, list, 0);
    assert(t.rows@ == kept_rows(all, top));
    assert forall|x: int| 0 <= x < parent.len() && depth(parent, x) is Some implies shown(f, x) == #[trigger] wanted(
        nodes,
        name,
        url,
        parent,
        x,
    ) by {
        lemma_wanted(nodes, times, name, url, f, x);
    }
    assert forall|k: int| 0 <= k < t.rows@.len() implies (#[trigger] t.rows@[k]).0 < nodes.listed().len() && wanted(
        nodes,
        name,
        url,
        parent,
        t.rows@[k].0 as int,
    ) && root_in(parent, t.rows@[k].0 as int, t.rows@[k].1 as nat) by {
        assert(t.rows@[k] == all[k]);
        let (x, d) = all[k];
        assert(row_ok(f, all[k]));
        assert(shown(f, x as int) == wanted(nodes, name, url, parent, x as int));
        lemma_up_depth(parent, x as int, d as nat);
        let a = up(parent, x as int, d as nat);
        lemma_leads(parent, x as int, a, d as nat);
        lemma_depth_bound(parent, a);
        assert(leads(parent, x as int, a, d as nat));
    }
    if t.rows@.len() < top {
        assert(t.rows@ == all);
        assert forall|x: int| 0 <= x < nodes.listed().len() && depth(parent, x) is Some && #[trigger] wanted(
            nodes,
            name,
            url,
            parent,
            x,
        ) implies has_row(t.rows@, x) by {
            assert(shown(f, x));
            let d = depth(parent, x)->0;
            lemma_up_depth(parent, x, d);
            let a = up(parent, x, d);
            lemma_depth_bound(parent, a);
            assert(above(parent, a, x));
            lemma_path_shown(f, a, x);
            assert(holds(list, a));
            let m = choose|m: int| 0 <= m < list.len() && #[trigger] list[m] == a;
            assert(above(parent, list[m] as int, x));
        }
    }
    assert forall|i: int, j: int| 0 <= i < j < t.rows@.len() && parent[(#[trigger] t.rows@[i]).0 as int] == parent[(
    #[trigger] t.rows@[j]).0 as int] implies t.inclusive@[t.rows@[i].0 as int] >= t.inclusive@[t.rows@[j].0 as int] by {
        assert(t.rows@[i] == all[i] && t.rows@[j] == all[j]);
        assert(inclusive(f, all[i].0 as int) >= inclusive(f, all[j].0 as int));
    }
}

/// A node that passes the filters, or calls or is called by one that does;
/// only nodes whose callers lead to a root count.
pub open spec fn wanted(
    nodes: ProfileNodes,
    name: Option<&Matcher>,
    url: Option<&Matcher>,
    parent: Seq<Option<usize>>,
    x: int,
) -> bool {
    exists|i: int|
        {
            &&& 0 <= i < nodes.listed().len()
            &&& depth(parent, i) is Some
            &&& meant(name, url, #[trigger] nodes.listed()[i])
            &&& calls(parent, x, i) || calls(parent, i, x)
        }
}

proof fn lemma_wanted(
    nodes: ProfileNodes,
    times: ProfileSelfTimes,
    name: Option<&Matcher>,
    url: Option<&Matcher>,
    f: Forest,
    x: int,
)
    requires
        crate::windowed::calltree::forest_of(nodes, times, name, url, f),
        forest_ok(f),
        0 <= x < f.parent@.len(),
        depth(f.parent@, x) is Some,
    ensures
        shown(f, x) == wanted(nodes, name, url, f.parent@, x),
{
    let parent = f.parent@;
    assert forall|i: int| 0 <= i < parent.len() && depth(parent, i) is Some implies (above(parent, x, i) || above(
        parent,
        i,
        x,
    )) == (#[trigger] calls(parent, x, i) || calls(parent, i, x)) by {
        lemma_above(parent, i, x);
        lemma_above(parent, x, i);
    }
    if shown(f, x) {
        let i = choose|i: int|
            0 <= i < f.parent@.len() && #[trigger] f.matched@[i] && (above(f.parent@, x, i) || above(f.parent@, i, x));
        assert(depth(parent, i) is Some);
        assert(calls(parent, x, i) || calls(parent, i, x));
        assert(meant(name, url, nodes.listed()[i]));
    }
    if wanted(nodes, name, url, parent, x) {
        let i = choose|i: int|
            {
                &&& 0 <= i < nodes.listed().len()
                &&& depth(parent, i) is Some
                &&& meant(name, url, #[trigger] nodes.listed()[i])
                &&& calls(parent, x, i) || calls(parent, i, x)
            };
        assert(calls(parent, x, i) || calls(parent, i, x));
        assert(f.matched@[i]);
    }
}

} // verus!
