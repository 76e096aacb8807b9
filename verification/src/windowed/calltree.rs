//! The CPU call tree with inclusive times.

use vstd::prelude::*;
use vstd::string::StringExecFns;
use crate::analysis::common::{lemma_total_step, total};
use crate::analysis::cpu::{
    cache_of,
    cpu_profile_for,
    lemma_fits_sum,
    nodes_of,
    profile_fits,
    time_by_id,
    times_of,
    CpuProfileCache,
    ProfileNode,
    ProfileNodes,
    ProfileSelfTimes,
    SUM_BOUND,
};
use crate::doc::{doc_view, make_ms, make_ratio, put, put_num, put_u64, ratio_num, Doc, PieceView};
use crate::matcher::{matcher_label, matches_text, Matcher};
use crate::render::{ms, put_window, short_url, txt, window_pieces};
use crate::scope::Scope;
use crate::sort::{lemma_order_unique, order, orders};
use crate::text::{after_slash, decimal};
use crate::trace::event::TraceEvent;

verus! {

/// The forest of a profile's nodes, by their places in the list: for each its
/// parent's place and its own time.
pub struct Forest {
    pub parent: Vec<Option<usize>>,
    pub own: Vec<i128>,
    pub matched: Vec<bool>,
}

/// How many steps lead from a node to a root; `None` when `fuel` steps do not.
pub open spec fn steps_up(parent: Seq<Option<usize>>, i: int, fuel: nat) -> Option<nat>
    decreases fuel,
{
    if parent[i] is None {
        Some(0)
    } else if fuel == 0 {
        None
    } else {
        match steps_up(parent, parent[i]->0 as int, (fuel - 1) as nat) {
            Some(d) => Some(d + 1),
            None => None,
        }
    }
}

/// The depth of a node; `None` when its parents run in a circle.
pub open spec fn depth(parent: Seq<Option<usize>>, i: int) -> Option<nat> {
    steps_up(parent, i, parent.len())
}

/// The node `s` steps above.
pub open spec fn up(parent: Seq<Option<usize>>, i: int, s: nat) -> int
    decreases s,
{
    if s == 0 {
        i
    } else if parent[i] is None {
        -1
    } else {
        up(parent, parent[i]->0 as int, (s - 1) as nat)
    }
}

/// Every parent is a node of the forest.
pub open spec fn parents_ok(parent: Seq<Option<usize>>) -> bool {
    forall|i: int| 0 <= i < parent.len() && (#[trigger] parent[i]) is Some ==> parent[i]->0 < parent.len()
}

/// Node `a` is node `i` or above it.
pub open spec fn above(parent: Seq<Option<usize>>, a: int, i: int) -> bool {
    match (depth(parent, a), depth(parent, i)) {
        (Some(da), Some(di)) => da <= di && up(parent, i, (di - da) as nat) == a,
        _ => a == i,
    }
}

/// More fuel changes no depth that was found.
pub(crate) proof fn lemma_more_fuel(parent: Seq<Option<usize>>, i: int, f: nat, g: nat)
    requires
        f <= g,
        steps_up(parent, i, f) is Some,
    ensures
        steps_up(parent, i, g) == steps_up(parent, i, f),
        steps_up(parent, i, f)->0 <= f,
    decreases f,
{
    if parent[i] is Some {
        lemma_more_fuel(parent, parent[i]->0 as int, (f - 1) as nat, (g - 1) as nat);
    }
}

/// A node is one deeper than its parent.
pub proof fn lemma_parent_depth(parent: Seq<Option<usize>>, i: int)
    requires
        parents_ok(parent),
        0 <= i < parent.len(),
        parent[i] is Some,
        depth(parent, i) is Some,
    ensures
        depth(parent, parent[i]->0 as int) is Some,
        depth(parent, i)->0 == depth(parent, parent[i]->0 as int)->0 + 1,
        depth(parent, i)->0 <= parent.len(),
{
    let n = parent.len();
    let q = parent[i]->0 as int;
    lemma_more_fuel(parent, i, n, n);
    lemma_more_fuel(parent, q, (n - 1) as nat, n);
}

/// The depth of a node.
pub(crate) fn find_depth(parent: &Vec<Option<usize>>, i: usize) -> (r: Option<usize>)
    requires
        parents_ok(parent@),
        i < parent@.len(),
    ensures
        match r {
            Some(d) => depth(parent@, i as int) == Some(d as nat) && d <= parent@.len(),
            None => depth(parent@, i as int) is None,
        },
{
    let n = parent.len();
    let mut cur: usize = i;
    let mut d: usize = 0;
    loop
        invariant
            n == parent@.len(),
            parents_ok(parent@),
            cur < n,
            d <= n,
            depth(parent@, i as int) == (match steps_up(parent@, cur as int, (n - d) as nat) {
                Some(x) => Some((x + d) as nat),
                None => None,
            }),
        decreases n - d,
    {
        match parent[cur] {
            None => {
                return Some(d);
            },
            Some(q) => {
                if d == n {
                    return None;
                }
                assert(parent@[cur as int] is Some);
                cur = q;
                d = d + 1;
            },
        }
    }
}

/// The own time of the nodes below, and with it of the node itself.
pub open spec fn below_time(f: Forest, a: int) -> spec_fn(usize) -> int {
    |i: usize|
        if above(f.parent@, a, i as int) {
            f.own@[i as int] as int
        } else {
            0
        }
}

/// The places of the forest, in order.
pub open spec fn places(n: nat) -> Seq<usize> {
    Seq::new(n, |i: int| i as usize)
}

/// The inclusive time of a node: its own and that of all nodes below it.
pub open spec fn inclusive(f: Forest, a: int) -> int {
    total(places(f.parent@.len()), below_time(f, a))
}

/// A node is shown when it lies in the subtree of a node that matches or on the
/// way to one, and its parents do not run in a circle.
pub open spec fn shown(f: Forest, a: int) -> bool {
    depth(f.parent@, a) is Some && exists|i: int|
        0 <= i < f.parent@.len() && #[trigger] f.matched@[i] && (above(f.parent@, a, i) || above(
            f.parent@,
            i,
            a,
        ))
}

/// The lists fit together and times are not negative; all times together fit.
pub open spec fn forest_ok(f: Forest) -> bool {
    let n = f.parent@.len();
    &&& parents_ok(f.parent@)
    &&& f.own@.len() == n
    &&& f.matched@.len() == n
    &&& n <= usize::MAX
    &&& forall|i: int| 0 <= i < n ==> (#[trigger] f.own@[i]) >= 0
    &&& total(places(n), own_time(f)) <= SUM_BOUND
}

pub open spec fn own_time(f: Forest) -> spec_fn(usize) -> int {
    |i: usize| f.own@[i as int] as int
}

pub proof fn lemma_part_of_all(f: Forest, a: int, k: int)
    requires
        forest_ok(f),
        0 <= k <= f.parent@.len(),
    ensures
        0 <= total(places(f.parent@.len()).take(k), below_time(f, a)) <= total(
            places(f.parent@.len()).take(k),
            own_time(f),
        ) <= total(places(f.parent@.len()), own_time(f)),
    decreases k,
{
    let s = places(f.parent@.len());
    if k > 0 {
        lemma_part_of_all(f, a, k - 1);
        lemma_total_step(s, below_time(f, a), k - 1);
        lemma_total_step(s, own_time(f), k - 1);
        assert(f.own@[k - 1] >= 0);
    } else {
        assert(s.take(0) =~= Seq::<usize>::empty());
    }
    lemma_prefix_own(f, k);
}

pub proof fn lemma_prefix_own(f: Forest, k: int)
    requires
        forest_ok(f),
        0 <= k <= f.parent@.len(),
    ensures
        total(places(f.parent@.len()).take(k), own_time(f)) <= total(
            places(f.parent@.len()),
            own_time(f),
        ),
    decreases f.parent@.len() - k,
{
    let s = places(f.parent@.len());
    if k < f.parent@.len() {
        lemma_prefix_own(f, k + 1);
        lemma_total_step(s, own_time(f), k);
        assert(f.own@[k] >= 0);
    } else {
        assert(s.take(k) =~= s);
    }
}

/// Of the nodes above `i`, those deeper than `d` steps from the root.
spec fn passed(parent: Seq<Option<usize>>, a: int, i: int, d: int) -> bool {
    above(parent, a, i) && depth(parent, a) is Some && depth(parent, a)->0 > d
}

/// The next node on the way up.
proof fn lemma_up_step(parent: Seq<Option<usize>>, i: int, cur: int)
    requires
        parents_ok(parent),
        0 <= i < parent.len(),
        0 <= cur < parent.len(),
        depth(parent, i) is Some,
        depth(parent, cur) is Some,
        above(parent, cur, i),
        parent[cur] is Some,
    ensures
        above(parent, parent[cur]->0 as int, i),
{
    lemma_parent_depth(parent, cur);
    let di = depth(parent, i)->0;
    let dc = depth(parent, cur)->0;
    lemma_up_more(parent, i, (di - dc) as nat);
}

/// One more step up.
proof fn lemma_up_more(parent: Seq<Option<usize>>, i: int, s: nat)
    requires
        up(parent, i, s) >= 0,
        parent[up(parent, i, s)] is Some,
    ensures
        up(parent, i, s + 1) == parent[up(parent, i, s)]->0,
    decreases s,
{
    if s > 0 {
        lemma_up_more(parent, parent[i]->0 as int, (s - 1) as nat);
        assert(up(parent, i, s + 1) == up(parent, parent[i]->0 as int, s));
    } else {
        assert(up(parent, i, 1) == up(parent, parent[i]->0 as int, 0));
    }
}

/// Above a node there is one node of each depth.
pub proof fn lemma_one_above(parent: Seq<Option<usize>>, a: int, b: int, i: int)
    requires
        above(parent, a, i),
        above(parent, b, i),
        depth(parent, i) is Some,
        depth(parent, a) is Some,
        depth(parent, a) == depth(parent, b),
    ensures
        a == b,
{
}

/// Add `t` to the time of a node and of all above it.
fn add_up(f: &Forest, i: usize, t: i128, inc: &mut Vec<i128>)
    requires
        forest_ok(*f),
        i < f.parent@.len(),
        t == f.own@[i as int],
        old(inc)@.len() == f.parent@.len(),
        forall|a: int|
            0 <= a < f.parent@.len() ==> (#[trigger] old(inc)@[a]) == total(
                places(f.parent@.len()).take(i as int),
                below_time(*f, a),
            ),
    ensures
        final(inc)@.len() == f.parent@.len(),
        forall|a: int|
            0 <= a < f.parent@.len() ==> (#[trigger] final(inc)@[a]) == total(
                places(f.parent@.len()).take(i + 1),
                below_time(*f, a),
            ),
{
    let ghost base = inc@;
    let ghost n = f.parent@.len();
    let ghost s = places(n);
    proof {
        assert(s[i as int] == i);
        assert forall|a: int| 0 <= a < n implies {
            &&& total(s.take(i + 1), below_time(*f, a)) == total(s.take(i as int), below_time(*f, a))
                + (if above(f.parent@, a, i as int) {
                t as int
            } else {
                0
            })
            &&& 0 <= #[trigger] base[a]
            &&& base[a] + (if above(f.parent@, a, i as int) {
                t as int
            } else {
                0
            }) <= SUM_BOUND
        } by {
            lemma_total_step(s, below_time(*f, a), i as int);
            lemma_part_of_all(*f, a, i as int);
            lemma_part_of_all(*f, a, i + 1);
        }
        assert(t >= 0);
    }
    match find_depth(&f.parent, i) {
        None => {
            let v: i128 = inc[i];
            assert(above(f.parent@, i as int, i as int));
            assert(base[i as int] >= 0);
            inc.set(i, v + t);
            proof {
                assert forall|a: int| 0 <= a < n implies (#[trigger] inc@[a]) == total(
                    s.take(i + 1),
                    below_time(*f, a),
                ) by {
                    let x = base[a];
                }
            }
        },
        Some(di) => {
            let mut cur: usize = i;
            let ghost mut cd: int = di as int;
            proof {
                assert forall|a: int| 0 <= a < n implies !#[trigger] passed(
                    f.parent@,
                    a,
                    i as int,
                    di as int,
                ) by {}
            }
            loop
                invariant_except_break
                    forest_ok(*f),
                    n == f.parent@.len(),
                    i < n,
                    cur < n,
                    base.len() == n,
                    inc@.len() == n,
                    depth(f.parent@, i as int) is Some,
                    depth(f.parent@, cur as int) is Some,
                    cd == depth(f.parent@, cur as int)->0,
                    above(f.parent@, cur as int, i as int),
                    forall|a: int|
                        0 <= a < n ==> 0 <= #[trigger] base[a] && base[a] + (if above(
                            f.parent@,
                            a,
                            i as int,
                        ) {
                            t as int
                        } else {
                            0
                        }) <= SUM_BOUND,
                    forall|a: int|
                        0 <= a < n ==> (#[trigger] inc@[a]) == base[a] + (if passed(
                            f.parent@,
                            a,
                            i as int,
                            cd,
                        ) {
                            t as int
                        } else {
                            0
                        }),
                ensures
                    inc@.len() == n,
                    forall|a: int|
                        0 <= a < n ==> (#[trigger] inc@[a]) == base[a] + (if above(
                            f.parent@,
                            a,
                            i as int,
                        ) {
                            t as int
                        } else {
                            0
                        }),
                decreases cd,
            {
                let ghost before = inc@;
                let v: i128 = inc[cur];
                assert(base[cur as int] >= 0);
                assert(before[cur as int] == base[cur as int]);
                inc.set(cur, v + t);
                proof {
                    assert forall|a: int| 0 <= a < n implies (#[trigger] inc@[a]) == base[a] + (if passed(
                        f.parent@,
                        a,
                        i as int,
                        cd - 1,
                    ) {
                        t as int
                    } else {
                        0
                    }) by {
                        let x = before[a];
                        if a != cur && passed(f.parent@, a, i as int, cd - 1) && !passed(
                            f.parent@,
                            a,
                            i as int,
                            cd,
                        ) {
                            lemma_one_above(f.parent@, a, cur as int, i as int);
                        }
                    }
                }
                match f.parent[cur] {
                    None => {
                        proof {
                            assert(cd == 0);
                            assert forall|a: int| 0 <= a < n implies (#[trigger] inc@[a]) == base[a]
                                + (if above(f.parent@, a, i as int) {
                                t as int
                            } else {
                                0
                            }) by {
                                if above(f.parent@, a, i as int) && depth(f.parent@, a) is None {
                                    assert(a == i);
                                }
                            }
                        }
                        break ;
                    },
                    Some(q) => {
                        proof {
                            lemma_parent_depth(f.parent@, cur as int);
                            lemma_up_step(f.parent@, i as int, cur as int);
                            cd = cd - 1;
                        }
                        cur = q;
                    },
                }
            }
            proof {
                assert forall|a: int| 0 <= a < n implies (#[trigger] inc@[a]) == total(
                    s.take(i + 1),
                    below_time(*f, a),
                ) by {
                    let x = base[a];
                }
            }
        },
    }
}

/// The inclusive time of every node.
fn find_inclusive(f: &Forest) -> (inc: Vec<i128>)
    requires
        forest_ok(*f),
    ensures
        inc@.len() == f.parent@.len(),
        forall|a: int| 0 <= a < f.parent@.len() ==> (#[trigger] inc@[a]) == inclusive(*f, a),
{
    let n = f.parent.len();
    let ghost s = places(n as nat);
    let mut inc: Vec<i128> = vec![0i128; n];
    let mut i: usize = 0;
    assert(s.take(0) =~= Seq::<usize>::empty());
    while i < n
        invariant
            forest_ok(*f),
            n == f.parent@.len(),
            s == places(n as nat),
            i <= n,
            inc@.len() == n,
            forall|a: int|
                0 <= a < n ==> (#[trigger] inc@[a]) == total(s.take(i as int), below_time(*f, a)),
        decreases n - i,
    {
        add_up(f, i, f.own[i], &mut inc);
        i = i + 1;
    }
    assert(s.take(n as int) =~= s);
    inc
}

/// One of the first `k` nodes that match is `a` or below it.
spec fn shown_by(f: Forest, a: int, k: int) -> bool {
    exists|i: int| 0 <= i < k && #[trigger] above(f.parent@, a, i) && f.matched@[i]
}

/// Mark a node and all above it.
fn mark_up(f: &Forest, i: usize, marks: &mut Vec<bool>)
    requires
        forest_ok(*f),
        i < f.parent@.len(),
        f.matched@[i as int],
        old(marks)@.len() == f.parent@.len(),
        forall|a: int|
            0 <= a < f.parent@.len() && depth(f.parent@, a) is Some ==> (#[trigger] old(marks)@[a]
                == shown_by(*f, a, i as int)),
    ensures
        final(marks)@.len() == f.parent@.len(),
        forall|a: int|
            0 <= a < f.parent@.len() && depth(f.parent@, a) is Some ==> (#[trigger] final(marks)@[a]
                == shown_by(*f, a, i + 1)),
{
    let ghost base = marks@;
    let ghost n = f.parent@.len();
    proof {
        assert forall|a: int| 0 <= a < n implies (#[trigger] shown_by(*f, a, i + 1) <==> (shown_by(
            *f,
            a,
            i as int,
        ) || above(f.parent@, a, i as int))) by {
            if shown_by(*f, a, i + 1) && !above(f.parent@, a, i as int) {
                let w = choose|w: int|
                    0 <= w < i + 1 && #[trigger] above(f.parent@, a, w) && f.matched@[w];
                assert(above(f.parent@, a, w));
            }
        }
    }
    match find_depth(&f.parent, i) {
        None => {
            proof {
                assert forall|a: int| 0 <= a < n && depth(f.parent@, a) is Some implies (
                #[trigger] marks@[a] == shown_by(*f, a, i + 1)) by {
                    assert(!above(f.parent@, a, i as int));
                    let x = shown_by(*f, a, i + 1);
                }
            }
        },
        Some(di) => {
            let mut cur: usize = i;
            let ghost mut cd: int = di as int;
            loop
                invariant_except_break
                    forest_ok(*f),
                    n == f.parent@.len(),
                    i < n,
                    cur < n,
                    base.len() == n,
                    marks@.len() == n,
                    depth(f.parent@, i as int) is Some,
                    depth(f.parent@, cur as int) is Some,
                    cd == depth(f.parent@, cur as int)->0,
                    above(f.parent@, cur as int, i as int),
                    forall|a: int|
                        0 <= a < n && depth(f.parent@, a) is Some ==> (#[trigger] marks@[a] == (
                        base[a] || passed(f.parent@, a, i as int, cd))),
                ensures
                    marks@.len() == n,
                    forall|a: int|
                        0 <= a < n && depth(f.parent@, a) is Some ==> (#[trigger] marks@[a] == (
                        base[a] || above(f.parent@, a, i as int))),
                decreases cd,
            {
                let ghost before = marks@;
                marks.set(cur, true);
                proof {
                    assert forall|a: int| 0 <= a < n && depth(f.parent@, a) is Some implies (
                    #[trigger] marks@[a] == (base[a] || passed(f.parent@, a, i as int, cd - 1))) by {
                        let x = before[a];
                        if a != cur && passed(f.parent@, a, i as int, cd - 1) && !passed(
                            f.parent@,
                            a,
                            i as int,
                            cd,
                        ) {
                            lemma_one_above(f.parent@, a, cur as int, i as int);
                        }
                    }
                }
                match f.parent[cur] {
                    None => {
                        assert(cd == 0);
                        break ;
                    },
                    Some(q) => {
                        proof {
                            lemma_parent_depth(f.parent@, cur as int);
                            lemma_up_step(f.parent@, i as int, cur as int);
                            cd = cd - 1;
                        }
                        cur = q;
                    },
                }
            }
            proof {
                assert forall|a: int| 0 <= a < n && depth(f.parent@, a) is Some implies (
                #[trigger] marks@[a] == shown_by(*f, a, i + 1)) by {
                    let x = shown_by(*f, a, i + 1);
                    let y = base[a];
                }
            }
        },
    }
}

/// A node that matches is `a` or above it.
spec fn under_match(f: Forest, a: int) -> bool {
    exists|i: int| 0 <= i < f.parent@.len() && #[trigger] f.matched@[i] && above(f.parent@, i, a)
}

/// Whether a node that matches is `a` or above it.
fn find_under(f: &Forest, a: usize) -> (r: bool)
    requires
        forest_ok(*f),
        a < f.parent@.len(),
        depth(f.parent@, a as int) is Some,
    ensures
        r == under_match(*f, a as int),
{
    let ghost n = f.parent@.len();
    let mut cur: usize = a;
    let ghost mut cd: int = depth(f.parent@, a as int)->0 as int;
    loop
        invariant
            forest_ok(*f),
            n == f.parent@.len(),
            a < n,
            cur < n,
            depth(f.parent@, a as int) is Some,
            depth(f.parent@, cur as int) is Some,
            cd == depth(f.parent@, cur as int)->0,
            above(f.parent@, cur as int, a as int),
            forall|i: int|
                0 <= i < n && #[trigger] f.matched@[i] ==> !passed(f.parent@, i, a as int, cd),
        decreases cd,
    {
        if f.matched[cur] {
            return true;
        }
        proof {
            assert forall|i: int| 0 <= i < n && #[trigger] f.matched@[i] implies !passed(
                f.parent@,
                i,
                a as int,
                cd - 1,
            ) by {
                if passed(f.parent@, i, a as int, cd - 1) {
                    lemma_one_above(f.parent@, i, cur as int, a as int);
                }
            }
        }
        match f.parent[cur] {
            None => {
                proof {
                    assert(cd == 0);
                    if under_match(*f, a as int) {
                        let i = choose|i: int|
                            0 <= i < n && #[trigger] f.matched@[i] && above(f.parent@, i, a as int);
                        assert(passed(f.parent@, i, a as int, -1));
                    }
                }
                return false;
            },
            Some(q) => {
                proof {
                    lemma_parent_depth(f.parent@, cur as int);
                    lemma_up_step(f.parent@, a as int, cur as int);
                    cd = cd - 1;
                }
                cur = q;
            },
        }
    }
}

/// Which nodes are shown.
fn find_shown(f: &Forest) -> (marks: Vec<bool>)
    requires
        forest_ok(*f),
    ensures
        marks@.len() == f.parent@.len(),
        forall|a: int| 0 <= a < f.parent@.len() ==> (#[trigger] marks@[a] == shown(*f, a)),
{
    let n = f.parent.len();
    let mut marks: Vec<bool> = vec![false; n];
    let mut i: usize = 0;
    while i < n
        invariant
            forest_ok(*f),
            n == f.parent@.len(),
            i <= n,
            marks@.len() == n,
            forall|a: int|
                0 <= a < n && depth(f.parent@, a) is Some ==> (#[trigger] marks@[a] == shown_by(
                    *f,
                    a,
                    i as int,
                )),
        decreases n - i,
    {
        let ghost before = marks@;
        if f.matched[i] {
            mark_up(f, i, &mut marks);
        } else {
            proof {
                assert forall|a: int| 0 <= a < n && depth(f.parent@, a) is Some implies (
                #[trigger] marks@[a] == shown_by(*f, a, i + 1)) by {
                    let x = before[a];
                    if shown_by(*f, a, i + 1) {
                        let w = choose|w: int|
                            0 <= w < i + 1 && #[trigger] above(f.parent@, a, w) && f.matched@[w];
                        assert(above(f.parent@, a, w));
                    }
                    if shown_by(*f, a, i as int) {
                        let w = choose|w: int|
                            0 <= w < i && #[trigger] above(f.parent@, a, w) && f.matched@[w];
                        assert(above(f.parent@, a, w));
                    }
                }
            }
        }
        i = i + 1;
    }
    let ghost done = marks@;
    let mut k: usize = 0;
    while k < n
        invariant
            forest_ok(*f),
            n == f.parent@.len(),
            k <= n,
            marks@.len() == n,
            done.len() == n,
            forall|a: int|
                0 <= a < n && depth(f.parent@, a) is Some ==> (#[trigger] done[a] == shown_by(
                    *f,
                    a,
                    n as int,
                )),
            forall|a: int|
                0 <= a < n ==> (#[trigger] marks@[a] == if a < k {
                    shown(*f, a)
                } else {
                    done[a]
                }),
        decreases n - k,
    {
        let has = find_depth(&f.parent, k).is_some();
        let m = marks[k];
        assert(done[k as int] == m);
        let show = has && (m || find_under(f, k));
        proof {
            if has {
                lemma_shown_parts(*f, k as int);
            }
        }
        marks.set(k, show);
        k = k + 1;
    }
    marks
}

proof fn lemma_shown_parts(f: Forest, a: int)
    requires
        depth(f.parent@, a) is Some,
    ensures
        shown(f, a) == (shown_by(f, a, f.parent@.len() as int) || under_match(f, a)),
{
    if shown(f, a) {
        let i = choose|i: int|
            0 <= i < f.parent@.len() && #[trigger] f.matched@[i] && (above(f.parent@, a, i) || above(
                f.parent@,
                i,
                a,
            ));
        assert(f.matched@[i]);
        assert(above(f.parent@, a, i) || under_match(f, a));
    }
    if shown_by(f, a, f.parent@.len() as int) {
        let i = choose|i: int|
            0 <= i < f.parent@.len() && #[trigger] above(f.parent@, a, i) && f.matched@[i];
        assert(f.matched@[i]);
    }
}

/// The shown nodes among the first `n` that have the given parent.
pub open spec fn kids_listed(f: Forest, p: Option<usize>, n: int) -> Seq<usize>
    decreases n,
{
    if n <= 0 {
        Seq::empty()
    } else {
        let before = kids_listed(f, p, n - 1);
        if f.parent@[n - 1] == p && shown(f, n - 1) {
            before.push((n - 1) as usize)
        } else {
            before
        }
    }
}

pub open spec fn inclusive_keys(f: Forest, list: Seq<usize>) -> Seq<i128> {
    list.map_values(|i: usize| inclusive(f, i as int) as i128)
}

/// `s` holds the nodes of the list, the most inclusive time first.
pub open spec fn is_by_time(f: Forest, list: Seq<usize>, s: Seq<usize>) -> bool {
    exists|p: Seq<usize>|
        {
            &&& #[trigger] orders(inclusive_keys(f, list), true, p)
            &&& s.len() == p.len()
            &&& forall|i: int| 0 <= i < s.len() ==> #[trigger] s[i] == list[p[i] as int]
        }
}

/// The nodes of the list, the most inclusive time first.
pub open spec fn by_time(f: Forest, list: Seq<usize>) -> Seq<usize> {
    choose|s: Seq<usize>| is_by_time(f, list, s)
}

/// The shown children of a node, or the shown roots, the most inclusive time
/// first.
pub open spec fn kids(f: Forest, p: Option<usize>) -> Seq<usize> {
    by_time(f, kids_listed(f, p, f.parent@.len() as int))
}

/// The rows of a node and all below it: node and depth, a node before its
/// children.
pub open spec fn tree_rows(f: Forest, i: usize, d: int) -> Seq<(usize, usize)>
    decreases f.parent@.len() + 1 - d, 0int,
{
    if d < 0 || d > f.parent@.len() {
        Seq::empty()
    } else {
        seq![(i, d as usize)] + forest_rows(f, kids(f, Some(i)), d + 1)
    }
}

/// The rows of the listed nodes, one after the other.
pub open spec fn forest_rows(f: Forest, list: Seq<usize>, d: int) -> Seq<(usize, usize)>
    decreases f.parent@.len() + 1 - d, list.len() + 1,
{
    if list.len() == 0 || d < 0 || d > f.parent@.len() {
        Seq::empty()
    } else {
        tree_rows(f, list[0], d) + forest_rows(f, list.drop_first(), d)
    }
}

/// All rows: the roots with the most inclusive time come first.
pub open spec fn all_rows(f: Forest) -> Seq<(usize, usize)> {
    forest_rows(f, kids(f, None), 0)
}

/// The rows that are kept: no more than `top`.
pub open spec fn kept_rows(all: Seq<(usize, usize)>, top: usize) -> Seq<(usize, usize)> {
    if all.len() <= top {
        all
    } else {
        all.take(top as int)
    }
}

proof fn lemma_by_time_unique(f: Forest, list: Seq<usize>, s: Seq<usize>)
    requires
        is_by_time(f, list, s),
    ensures
        by_time(f, list) == s,
{
    let t = by_time(f, list);
    assert(is_by_time(f, list, t));
    let keys = inclusive_keys(f, list);
    let p = choose|p: Seq<usize>|
        {
            &&& #[trigger] orders(keys, true, p)
            &&& s.len() == p.len()
            &&& forall|i: int| 0 <= i < s.len() ==> #[trigger] s[i] == list[p[i] as int]
        };
    let q = choose|q: Seq<usize>|
        {
            &&& #[trigger] orders(keys, true, q)
            &&& t.len() == q.len()
            &&& forall|i: int| 0 <= i < t.len() ==> #[trigger] t[i] == list[q[i] as int]
        };
    lemma_order_unique(keys, true, p, q);
    assert(s =~= t);
}

/// The shown children of a node, or the shown roots.
fn find_kids(f: &Forest, inc: &Vec<i128>, marks: &Vec<bool>, p: Option<usize>) -> (r: Vec<usize>)
    requires
        forest_ok(*f),
        inc@.len() == f.parent@.len(),
        forall|a: int| 0 <= a < f.parent@.len() ==> (#[trigger] inc@[a]) == inclusive(*f, a),
        marks@.len() == f.parent@.len(),
        forall|a: int| 0 <= a < f.parent@.len() ==> (#[trigger] marks@[a] == shown(*f, a)),
    ensures
        r@ == kids(*f, p),
        forall|k: int|
            0 <= k < r@.len() ==> (#[trigger] r@[k]) < f.parent@.len() && f.parent@[r@[k] as int] == p
                && shown(*f, r@[k] as int),
{
    let n = f.parent.len();
    let mut list: Vec<usize> = Vec::new();
    let mut keys: Vec<i128> = Vec::new();
    let mut i: usize = 0;
    while i < n
        invariant
            forest_ok(*f),
            n == f.parent@.len(),
            i <= n,
            inc@.len() == n,
            forall|a: int| 0 <= a < n ==> (#[trigger] inc@[a]) == inclusive(*f, a),
            marks@.len() == n,
            forall|a: int| 0 <= a < n ==> (#[trigger] marks@[a] == shown(*f, a)),
            list@ == kids_listed(*f, p, i as int),
            keys@ =~= inclusive_keys(*f, list@),
            forall|k: int|
                0 <= k < list@.len() ==> (#[trigger] list@[k]) < n && f.parent@[list@[k] as int] == p
                    && shown(*f, list@[k] as int),
        decreases n - i,
    {
        let fits = match (f.parent[i], p) {
            (Some(a), Some(b)) => a == b,
            (None, None) => true,
            _ => false,
        };
        assert(fits == (f.parent@[i as int] == p));
        let x = inc[i];
        if fits && marks[i] {
            let ghost before = list@;
            list.push(i);
            keys.push(inc[i]);
            assert(inclusive_keys(*f, list@) =~= inclusive_keys(*f, before).push(x));
        }
        i = i + 1;
    }
    let q = order(&keys, true);
    let mut out: Vec<usize> = Vec::new();
    let mut k: usize = 0;
    while k < q.len()
        invariant
            k <= q@.len(),
            n == f.parent@.len(),
            orders(keys@, true, q@),
            keys@.len() == list@.len(),
            forall|j: int|
                0 <= j < list@.len() ==> (#[trigger] list@[j]) < n && f.parent@[list@[j] as int] == p
                    && shown(*f, list@[j] as int),
            out@.len() == k,
            forall|j: int| 0 <= j < k ==> #[trigger] out@[j] == list@[q@[j] as int],
        decreases q@.len() - k,
    {
        let slot = q[k];
        out.push(list[slot]);
        k = k + 1;
    }
    proof {
        assert(is_by_time(*f, list@, out@));
        lemma_by_time_unique(*f, list@, out@);
        assert forall|j: int| 0 <= j < out@.len() implies (#[trigger] out@[j]) < n && f.parent@[out@[j] as int]
            == p && shown(*f, out@[j] as int) by {
            let y = list@[q@[j] as int];
        }
    }
    out
}

/// The rows that a stack of nodes stands for, the last of it first.
spec fn stacked(f: Forest, stack: Seq<(usize, usize)>) -> Seq<(usize, usize)>
    decreases stack.len(),
{
    if stack.len() == 0 {
        Seq::empty()
    } else {
        tree_rows(f, stack.last().0, stack.last().1 as int) + stacked(f, stack.drop_last())
    }
}

/// The stack's nodes are shown, at their depths.
spec fn stack_ok(f: Forest, stack: Seq<(usize, usize)>) -> bool {
    forall|k: int|
        0 <= k < stack.len() ==> {
            &&& (#[trigger] stack[k]).0 < f.parent@.len()
            &&& shown(f, stack[k].0 as int)
            &&& depth(f.parent@, stack[k].0 as int) == Some(stack[k].1 as nat)
            &&& stack[k].1 <= f.parent@.len()
        }
}

proof fn lemma_stacked_push(f: Forest, stack: Seq<(usize, usize)>, x: (usize, usize))
    ensures
        stacked(f, stack.push(x)) == tree_rows(f, x.0, x.1 as int) + stacked(f, stack),
{
    assert(stack.push(x).drop_last() =~= stack);
}

/// Push the children of a node, so that the first of them comes off first.
fn push_kids(f: &Forest, stack: &mut Vec<(usize, usize)>, list: &Vec<usize>, d: usize)
    requires
        d <= f.parent@.len(),
        stack_ok(*f, old(stack)@),
        forall|k: int|
            0 <= k < list@.len() ==> (#[trigger] list@[k]) < f.parent@.len() && shown(
                *f,
                list@[k] as int,
            ) && depth(f.parent@, list@[k] as int) == Some(d as nat),
    ensures
        stack_ok(*f, final(stack)@),
        stacked(*f, final(stack)@) == forest_rows(*f, list@, d as int) + stacked(*f, old(stack)@),
{
    let ghost base = stacked(*f, stack@);
    let mut j: usize = list.len();
    assert(list@.skip(list@.len() as int) =~= Seq::<usize>::empty());
    assert(base =~= forest_rows(*f, list@.skip(j as int), d as int) + base);
    while j > 0
        invariant
            j <= list@.len(),
            d <= f.parent@.len(),
            stack_ok(*f, stack@),
            forall|k: int|
                0 <= k < list@.len() ==> (#[trigger] list@[k]) < f.parent@.len() && shown(
                    *f,
                    list@[k] as int,
                ) && depth(f.parent@, list@[k] as int) == Some(d as nat),
            stacked(*f, stack@) == forest_rows(*f, list@.skip(j as int), d as int) + base,
        decreases j,
    {
        let ghost before = stack@;
        let x = list[j - 1];
        stack.push((x, d));
        proof {
            lemma_stacked_push(*f, before, (x, d));
            assert(list@.skip(j - 1).drop_first() =~= list@.skip(j as int));
            assert(list@.skip(j - 1)[0] == x);
            assert(stacked(*f, stack@) =~= forest_rows(*f, list@.skip(j - 1), d as int) + base);
        }
        j = j - 1;
    }
    assert(list@.skip(0) =~= list@);
}

/// The rows of the tree, at most `top` of them.
pub fn emit_rows(f: &Forest, inc: &Vec<i128>, marks: &Vec<bool>, top: usize) -> (rows: Vec<(
    usize,
    usize,
)>)
    requires
        forest_ok(*f),
        inc@.len() == f.parent@.len(),
        forall|a: int| 0 <= a < f.parent@.len() ==> (#[trigger] inc@[a]) == inclusive(*f, a),
        marks@.len() == f.parent@.len(),
        forall|a: int| 0 <= a < f.parent@.len() ==> (#[trigger] marks@[a] == shown(*f, a)),
    ensures
        rows@ == kept_rows(all_rows(*f), top),
        forall|k: int| 0 <= k < rows@.len() ==> (#[trigger] rows@[k]).0 < f.parent@.len(),
{
    let mut rows: Vec<(usize, usize)> = Vec::new();
    let ghost all = all_rows(*f);
    if top == 0 {
        assert(rows@ =~= kept_rows(all, top));
        return rows;
    }
    let roots = find_kids(f, inc, marks, None);
    let mut stack: Vec<(usize, usize)> = Vec::new();
    push_kids(f, &mut stack, &roots, 0);
    assert(rows@ + stacked(*f, stack@) =~= all);
    while stack.len() > 0
        invariant
            forest_ok(*f),
                inc@.len() == f.parent@.len(),
            forall|a: int| 0 <= a < f.parent@.len() ==> (#[trigger] inc@[a]) == inclusive(*f, a),
            marks@.len() == f.parent@.len(),
            forall|a: int| 0 <= a < f.parent@.len() ==> (#[trigger] marks@[a] == shown(*f, a)),
            stack_ok(*f, stack@),
            rows@ + stacked(*f, stack@) == all,
            all == all_rows(*f),
            rows@.len() < top,
            forall|k: int| 0 <= k < rows@.len() ==> (#[trigger] rows@[k]).0 < f.parent@.len(),
        decreases all.len() - rows@.len(),
    {
        let ghost stack0 = stack@;
        let ghost rows0 = rows@;
        let (i, d) = stack[stack.len() - 1];
        assert(stack0[stack0.len() - 1] == (i, d));
        let popped = stack.pop();
        rows.push((i, d));
        assert(stack@ =~= stack0.drop_last());
        let ghost below = forest_rows(*f, kids(*f, Some(i)), d + 1);
        proof {
            assert(stacked(*f, stack0) == tree_rows(*f, i, d as int) + stacked(*f, stack@));
            assert(tree_rows(*f, i, d as int) =~= seq![(i, d)] + below);
            assert(rows@ + (below + stacked(*f, stack@)) =~= all);
        }
        if rows.len() >= top {
            assert(rows@ =~= kept_rows(all, top));
            return rows;
        }
        let list = find_kids(f, inc, marks, Some(i));
        if list.len() > 0 {
            proof {
                assert forall|k: int| 0 <= k < list@.len() implies depth(
                    f.parent@,
                    #[trigger] list@[k] as int,
                ) == Some((d + 1) as nat) by {
                    lemma_parent_depth(f.parent@, list@[k] as int);
                }
                lemma_parent_depth(f.parent@, list@[0] as int);
            }
            push_kids(f, &mut stack, &list, d + 1);
            assert(rows@ + stacked(*f, stack@) =~= all);
        } else {
            assert(below =~= Seq::<(usize, usize)>::empty());
            assert(rows@ + stacked(*f, stack@) =~= all);
        }
    }
    assert(rows@ =~= all);
    assert(rows@ =~= kept_rows(all, top));
    rows
}

/// The place of a node's parent in the list.
pub open spec fn parent_place(list: Seq<ProfileNode>, i: int, p: Option<usize>) -> bool {
    match list[i].parent {
        Some(id) => match p {
            Some(k) => k < list.len() && list[k as int].id == id,
            None => forall|j: int| 0 <= j < list.len() ==> (#[trigger] list[j]).id != id,
        },
        None => p is None,
    }
}

/// The matcher, if there is one, matches the text.
pub open spec fn passes(m: Option<&Matcher>, s: Seq<char>) -> bool {
    match m {
        Some(x) => matches_text(*x, s),
        None => true,
    }
}

/// The forest of a profile: parents by place, own times, and which nodes match
/// both filters.
pub open spec fn forest_of(
    nodes: ProfileNodes,
    times: ProfileSelfTimes,
    name_matcher: Option<&Matcher>,
    url_matcher: Option<&Matcher>,
    f: Forest,
) -> bool {
    let list = nodes.listed();
    &&& f.parent@.len() == list.len()
    &&& f.own@.len() == list.len()
    &&& f.matched@.len() == list.len()
    &&& forall|i: int| 0 <= i < list.len() ==> parent_place(list, i, #[trigger] f.parent@[i])
    &&& forall|i: int| 0 <= i < list.len() ==> (#[trigger] f.own@[i]) == times.time(list[i].id)
    &&& forall|i: int|
        0 <= i < list.len() ==> (#[trigger] f.matched@[i] == (passes(name_matcher, list[i].name@)
            && passes(url_matcher, list[i].url@)))
}

fn test(m: Option<&Matcher>, s: &str) -> (r: bool)
    ensures
        r == passes(m, s@),
{
    match m {
        Some(x) => x.matches(s),
        None => true,
    }
}

proof fn lemma_own_total(nodes: ProfileNodes, times: ProfileSelfTimes, f: Forest, k: int)
    requires
        nodes.wf(),
        f.own@.len() == nodes.listed().len(),
        f.parent@.len() == nodes.listed().len(),
        nodes.listed().len() <= usize::MAX,
        forall|i: int|
            0 <= i < nodes.listed().len() ==> (#[trigger] f.own@[i]) == times.time(
                nodes.listed()[i].id,
            ),
        0 <= k <= nodes.listed().len(),
    ensures
        total(places(f.parent@.len()).take(k), own_time(f)) == total(
            nodes.listed().map_values(|n: ProfileNode| n.id).take(k),
            time_by_id(times),
        ),
    decreases k,
{
    let s = places(f.parent@.len());
    let ids = nodes.listed().map_values(|n: ProfileNode| n.id);
    if k > 0 {
        lemma_own_total(nodes, times, f, k - 1);
        lemma_total_step(s, own_time(f), k - 1);
        lemma_total_step(ids, time_by_id(times), k - 1);
        assert(f.own@[k - 1] == times.time(nodes.listed()[k - 1].id));
    } else {
        assert(s.take(0) =~= Seq::<usize>::empty());
        assert(ids.take(0) =~= Seq::<u64>::empty());
    }
}

/// Build the forest of a profile.
pub fn build_forest(
    nodes: &ProfileNodes,
    times: &ProfileSelfTimes,
    name_matcher: Option<&Matcher>,
    url_matcher: Option<&Matcher>,
) -> (f: Forest)
    requires
        nodes.wf(),
        times.wf(),
        times.sum() <= SUM_BOUND,
    ensures
        forest_of(*nodes, *times, name_matcher, url_matcher, f),
        forest_ok(f),
{
    let n = nodes.len();
    let ghost list = nodes.listed();
    let mut f = Forest { parent: Vec::new(), own: Vec::new(), matched: Vec::new() };
    let mut i: usize = 0;
    while i < n
        invariant
            n == list.len(),
            list == nodes.listed(),
            i <= n,
            nodes.wf(),
            times.wf(),
            f.parent@.len() == i,
            f.own@.len() == i,
            f.matched@.len() == i,
            forall|k: int| 0 <= k < i ==> parent_place(list, k, #[trigger] f.parent@[k]),
            forall|k: int| 0 <= k < i ==> (#[trigger] f.own@[k]) == times.time(list[k].id),
            forall|k: int|
                0 <= k < i ==> (#[trigger] f.matched@[k] == (passes(name_matcher, list[k].name@)
                    && passes(url_matcher, list[k].url@))),
        decreases n - i,
    {
        let node = nodes.at(i);
        let p: Option<usize> = match node.parent {
            Some(id) => nodes.place(id),
            None => None,
        };
        f.parent.push(p);
        f.own.push(times.get(node.id));
        f.matched.push(test(name_matcher, node.name.as_str()) && test(url_matcher, node.url.as_str()));
        i = i + 1;
    }
    proof {
        assert forall|k: int| 0 <= k < n implies (#[trigger] f.own@[k]) >= 0 by {
            times.lemma_time_listed(list[k].id);
        }
        assert forall|k: int| 0 <= k < n && (#[trigger] f.parent@[k]) is Some implies f.parent@[k]->0
            < n by {
            assert(parent_place(list, k, f.parent@[k]));
        }
        let ids = list.map_values(|x: ProfileNode| x.id);
        assert forall|a: int, b: int| 0 <= a < b < ids.len() implies (#[trigger] ids[a]) != (
        #[trigger] ids[b]) by {
            nodes.lemma_listed(a);
            assert(list[b].id == ids[b]);
        }
        times.lemma_distinct_sum(ids);
        lemma_own_total(*nodes, *times, f, n as int);
        assert(places(n as nat).take(n as int) =~= places(n as nat));
        assert(ids.take(n as int) =~= ids);
    }
    f
}

/// The call tree with inclusive times.
pub struct CallTree {
    pub forest: Forest,
    pub inclusive: Vec<i128>,
    /// Node and depth of each row.
    pub rows: Vec<(usize, usize)>,
    pub total: i128,
    /// Number of nodes whose parents lead to a root.
    pub reached: usize,
}

/// Number of the first `n` nodes whose parents lead to a root.
pub open spec fn reached(parent: Seq<Option<usize>>, n: int) -> nat
    decreases n,
{
    if n <= 0 {
        0
    } else {
        reached(parent, n - 1) + if depth(parent, n - 1) is Some {
            1nat
        } else {
            0nat
        }
    }
}

/// What the call tree says.
pub open spec fn calltree_of(
    nodes: ProfileNodes,
    times: ProfileSelfTimes,
    name_matcher: Option<&Matcher>,
    url_matcher: Option<&Matcher>,
    top: usize,
    t: CallTree,
) -> bool {
    &&& forest_of(nodes, times, name_matcher, url_matcher, t.forest)
    &&& forest_ok(t.forest)
    &&& t.inclusive@.len() == nodes.listed().len()
    &&& forall|a: int|
        0 <= a < nodes.listed().len() ==> (#[trigger] t.inclusive@[a]) == inclusive(t.forest, a)
    &&& t.rows@ == kept_rows(all_rows(t.forest), top)
    &&& t.total == times.sum()
    &&& t.reached == reached(t.forest.parent@, nodes.listed().len() as int)
    &&& forall|k: int| 0 <= k < t.rows@.len() ==> (#[trigger] t.rows@[k]).0 < nodes.listed().len()
}

/// The call tree of a profile.
pub fn call_tree(
    nodes: &ProfileNodes,
    times: &ProfileSelfTimes,
    name_matcher: Option<&Matcher>,
    url_matcher: Option<&Matcher>,
    top: usize,
) -> (t: CallTree)
    requires
        nodes.wf(),
        times.wf(),
        times.sum() <= SUM_BOUND,
    ensures
        calltree_of(*nodes, *times, name_matcher, url_matcher, top, t),
{
    let forest = build_forest(nodes, times, name_matcher, url_matcher);
    let inclusive = find_inclusive(&forest);
    let marks = find_shown(&forest);
    let rows = emit_rows(&forest, &inclusive, &marks, top);
    let n = nodes.len();
    let mut count: usize = 0;
    let mut i: usize = 0;
    while i < n
        invariant
            n == forest.parent@.len(),
            forest_ok(forest),
            i <= n,
            count <= i,
            count == reached(forest.parent@, i as int),
        decreases n - i,
    {
        if find_depth(&forest.parent, i).is_some() {
            count = count + 1;
        }
        i = i + 1;
    }
    let total = times.total();
    CallTree { forest, inclusive, rows, total, reached: count }
}

/// A row of the call tree.
pub struct CallRow {
    pub depth: usize,
    pub function: String,
    pub url: String,
    pub own: i128,
    pub inclusive: i128,
}

/// The name of a function; anonymous ones are told so.
pub open spec fn shown_name(name: Seq<char>) -> Seq<char> {
    if name.len() == 0 {
        "(anonymous)"@
    } else {
        name
    }
}

/// What row `k` of the tree says.
pub open spec fn call_row(nodes: ProfileNodes, t: CallTree, k: int, r: CallRow) -> bool {
    let (i, d) = t.rows@[k];
    &&& r.depth == d
    &&& r.function@ == shown_name(nodes.listed()[i as int].name@)
    &&& r.url@ == nodes.listed()[i as int].url@
    &&& r.own == t.forest.own@[i as int]
    &&& r.inclusive == t.inclusive@[i as int]
}

pub open spec fn call_rows(nodes: ProfileNodes, t: CallTree, rows: Seq<CallRow>) -> bool {
    rows.len() == t.rows@.len() && forall|k: int|
        0 <= k < rows.len() ==> call_row(nodes, t, k, #[trigger] rows[k])
}

fn build_rows(nodes: &ProfileNodes, t: &CallTree) -> (rows: Vec<CallRow>)
    requires
        t.inclusive@.len() == nodes.listed().len(),
        t.forest.own@.len() == nodes.listed().len(),
        forall|k: int| 0 <= k < t.rows@.len() ==> (#[trigger] t.rows@[k]).0 < nodes.listed().len(),
    ensures
        call_rows(*nodes, *t, rows@),
{
    let mut rows: Vec<CallRow> = Vec::new();
    let mut k: usize = 0;
    while k < t.rows.len()
        invariant
            k <= t.rows@.len(),
            t.inclusive@.len() == nodes.listed().len(),
            t.forest.own@.len() == nodes.listed().len(),
            forall|j: int| 0 <= j < t.rows@.len() ==> (#[trigger] t.rows@[j]).0 < nodes.listed().len(),
            rows@.len() == k,
            forall|j: int| 0 <= j < k ==> call_row(*nodes, *t, j, #[trigger] rows@[j]),
        decreases t.rows@.len() - k,
    {
        let (i, d) = t.rows[k];
        let node = nodes.at(i);
        let function = if node.name.as_str().is_empty() {
            "(anonymous)".to_owned()
        } else {
            node.name.clone()
        };
        rows.push(
            CallRow {
                depth: d,
                function,
                url: node.url.clone(),
                own: t.forest.own[i],
                inclusive: t.inclusive[i],
            },
        );
        k = k + 1;
    }
    rows
}

/// Two spaces per level.
pub open spec fn indent(d: nat) -> Seq<char> {
    Seq::new(2 * d, |i: int| ' ')
}

fn make_indent(d: usize) -> (r: String)
    ensures
        r@ == indent(d as nat),
{
    let mut s = String::new();
    let mut i: usize = 0;
    assert(indent(0) =~= Seq::<char>::empty());
    while i < d
        invariant
            i <= d,
            s@ == indent(i as nat),
        decreases d - i,
    {
        s.append("  ");
        proof {
            reveal_strlit("  ");
            assert(s@ =~= indent((i + 1) as nat));
        }
        i = i + 1;
    }
    s
}

/// The file of an address, in brackets.
pub open spec fn file_note(url: Seq<char>) -> Seq<char> {
    if url.len() == 0 {
        Seq::empty()
    } else {
        "  ["@ + after_slash(url) + "]"@
    }
}

fn make_file_note(url: &str) -> (r: String)
    ensures
        r@ == file_note(url@),
{
    let mut s = String::new();
    if url.is_empty() {
        return s;
    }
    s.append("  [");
    s.append(short_url(url).as_str());
    s.append("]");
    assert(s@ =~= "  ["@ + after_slash(url@) + "]"@);
    s
}

/// A share in percent, with one decimal.
pub open spec fn pct1(part: int, all: int) -> PieceView {
    PieceView::Number(ratio_num(part, all, 100, 1, false))
}

/// The line of a row.
pub open spec fn row_pieces(r: CallRow, all: int) -> Seq<PieceView> {
    seq![
        txt(indent(r.depth as nat)),
        txt(r.function@),
        txt(file_note(r.url@)),
        txt("  self "@),
        ms(r.own as int),
        txt("ms · incl "@),
        ms(r.inclusive as int),
        txt("ms ("@),
        pct1(r.inclusive as int, all),
        txt("%)\n"@),
    ]
}

pub open spec fn rows_pieces(rows: Seq<CallRow>, all: int, n: int) -> Seq<PieceView>
    decreases n,
{
    if n <= 0 {
        Seq::empty()
    } else {
        rows_pieces(rows, all, n - 1) + row_pieces(rows[n - 1], all)
    }
}

/// How the filters of the tree are told.
pub open spec fn filter_word(name: Option<&Matcher>, url: Option<&Matcher>) -> Seq<char> {
    match (name, url) {
        (Some(n), Some(u)) => matcher_label(*n) + " + url~"@ + matcher_label(*u),
        (Some(n), None) => "~ "@ + matcher_label(*n),
        (None, Some(u)) => "url~"@ + matcher_label(*u),
        (None, None) => "all nodes"@,
    }
}

fn make_filter_word(name: Option<&Matcher>, url: Option<&Matcher>) -> (r: String)
    ensures
        r@ == filter_word(name, url),
{
    let mut s = String::new();
    match (name, url) {
        (Some(n), Some(u)) => {
            s.append(n.label().as_str());
            s.append(" + url~");
            s.append(u.label().as_str());
        },
        (Some(n), None) => {
            s.append("~ ");
            s.append(n.label().as_str());
        },
        (None, Some(u)) => {
            s.append("url~");
            s.append(u.label().as_str());
        },
        (None, None) => {
            s.append("all nodes");
        },
    }
    assert(s@ =~= filter_word(name, url));
    s
}

/// The section on the call tree.
pub open spec fn calltree_pieces(
    rows: Seq<CallRow>,
    all: int,
    reached: usize,
    top: usize,
    name: Option<&Matcher>,
    url: Option<&Matcher>,
    window: Option<(i64, i64)>,
    min_ts: i64,
) -> Seq<PieceView> {
    let n = rows.len();
    seq![
        txt("## CPU call tree (inclusive, "@),
        txt(decimal(n)),
        txt(" nodes shown, "@),
        txt(filter_word(name, url)),
        txt(")\n\n"@),
    ] + window_pieces(window, min_ts) + seq![
        txt("- **Total sampled**: "@),
        ms(all),
        txt("ms\n\n"@),
    ] + if n == 0 {
        seq![txt("No matching nodes.\n\n"@)]
    } else {
        seq![txt("```text\n"@)] + rows_pieces(rows, all, n as int) + seq![txt("```\n"@)] + if n >= top
            && name is None && url is None {
            seq![
                txt("\n_Showing "@),
                txt(decimal(n)),
                txt(" of "@),
                txt(decimal(reached as nat)),
                txt(" nodes (use --top to see more)._\n"@),
            ]
        } else {
            seq![txt("\n"@)]
        }
    }
}

#[verifier::rlimit(30)]
fn put_row(d: &mut Doc, r: &CallRow, all: i128)
    ensures
        doc_view(final(d)@) == doc_view(old(d)@) + row_pieces(*r, all as int),
{
    let ghost before = doc_view(d@);
    put(d, make_indent(r.depth).as_str());
    put(d, r.function.as_str());
    put(d, make_file_note(r.url.as_str()).as_str());
    put(d, "  self ");
    put_num(d, make_ms(r.own));
    put(d, "ms · incl ");
    put_num(d, make_ms(r.inclusive));
    put(d, "ms (");
    put_num(d, make_ratio(r.inclusive, all, 100, 1, false));
    put(d, "%)\n");
    assert(doc_view(d@) =~= before + row_pieces(*r, all as int));
}

fn put_rows(d: &mut Doc, rows: &Vec<CallRow>, all: i128)
    ensures
        doc_view(final(d)@) == doc_view(old(d)@) + rows_pieces(
            rows@,
            all as int,
            rows@.len() as int,
        ),
{
    let ghost before = doc_view(d@);
    let mut k: usize = 0;
    assert(before + rows_pieces(rows@, all as int, 0) =~= before);
    while k < rows.len()
        invariant
            k <= rows@.len(),
            doc_view(d@) == before + rows_pieces(rows@, all as int, k as int),
        decreases rows@.len() - k,
    {
        put_row(d, &rows[k], all);
        assert(doc_view(d@) =~= before + rows_pieces(rows@, all as int, k + 1));
        k = k + 1;
    }
}

/// Write the section on the call tree.
#[verifier::rlimit(30)]
pub fn calltree_doc(
    rows: &Vec<CallRow>,
    all: i128,
    reached: usize,
    top: usize,
    name: Option<&Matcher>,
    url: Option<&Matcher>,
    window: Option<(i64, i64)>,
    min_ts: i64,
) -> (d: Doc)
    ensures
        doc_view(d@) == calltree_pieces(
            rows@,
            all as int,
            reached,
            top,
            name,
            url,
            window,
            min_ts,
        ),
{
    let n = rows.len();
    let mut d: Doc = Vec::new();
    put(&mut d, "## CPU call tree (inclusive, ");
    put_u64(&mut d, n as u64);
    put(&mut d, " nodes shown, ");
    put(&mut d, make_filter_word(name, url).as_str());
    put(&mut d, ")\n\n");
    put_window(&mut d, window, min_ts);
    put(&mut d, "- **Total sampled**: ");
    put_num(&mut d, make_ms(all));
    put(&mut d, "ms\n\n");
    let ghost head = doc_view(d@);
    if n == 0 {
        put(&mut d, "No matching nodes.\n\n");
    } else {
        put(&mut d, "```text\n");
        put_rows(&mut d, rows, all);
        put(&mut d, "```\n");
        if n >= top && name.is_none() && url.is_none() {
            put(&mut d, "\n_Showing ");
            put_u64(&mut d, n as u64);
            put(&mut d, " of ");
            put_u64(&mut d, reached as u64);
            put(&mut d, " nodes (use --top to see more)._\n");
        } else {
            put(&mut d, "\n");
        }
    }
    assert(doc_view(d@) =~= calltree_pieces(
        rows@,
        all as int,
        reached,
        top,
        name,
        url,
        window,
        min_ts,
    ));
    d
}

/// The rows of the call tree of a scope, with the time of all samples.
pub open spec fn section_rows(
    events: Seq<TraceEvent>,
    scope: Scope,
    name: Option<&Matcher>,
    url: Option<&Matcher>,
    top: usize,
    rows: Seq<CallRow>,
    all: i128,
    reached: usize,
) -> bool {
    exists|c: CpuProfileCache, t: CallTree|
        {
            &&& nodes_of(events, events.len() as int, c.nodes)
            &&& times_of(events, Some(scope), scope.window, events.len() as int, c.self_times)
            &&& #[trigger] calltree_of(c.nodes, c.self_times, name, url, top, t)
            &&& call_rows(c.nodes, t, rows)
            &&& all == t.total
            &&& reached == t.reached
        }
}

/// Top-down CPU call tree with inclusive time: a node's own and that of all
/// nodes below it. The filters keep the subtrees of the nodes that match both,
/// and the nodes above these, so that the path stays visible.
pub fn calltree_section(
    events: &[TraceEvent],
    scope: &Scope,
    name_matcher: Option<&Matcher>,
    url_matcher: Option<&Matcher>,
    top: usize,
    min_ts: i64,
    cache: Option<&CpuProfileCache>,
) -> (r: (Doc, Vec<CallRow>, i128))
    requires
        profile_fits(events@),
        cache matches Some(c) ==> cache_of(events@, *c),
    ensures
        exists|reached: usize|
            {
                &&& #[trigger] section_rows(
                    events@,
                    *scope,
                    name_matcher,
                    url_matcher,
                    top,
                    r.1@,
                    r.2,
                    reached,
                )
                &&& doc_view(r.0@) == calltree_pieces(
                    r.1@,
                    r.2 as int,
                    reached,
                    top,
                    name_matcher,
                    url_matcher,
                    scope.window,
                    min_ts,
                )
            },
{
    let profile = cpu_profile_for(events, scope, cache);
    let c = profile.get();
    proof {
        lemma_fits_sum(events@.len() as int, c.self_times.sum());
    }
    let t = call_tree(&c.nodes, &c.self_times, name_matcher, url_matcher, top);
    let rows = build_rows(&c.nodes, &t);
    let d = calltree_doc(
        &rows,
        t.total,
        t.reached,
        top,
        name_matcher,
        url_matcher,
        scope.window,
        min_ts,
    );
    let reached = t.reached;
    let r = (d, rows, t.total);
    assert(section_rows(events@, *scope, name_matcher, url_matcher, top, r.1@, r.2, reached));
    assert(doc_view(r.0@) == calltree_pieces(
        r.1@,
        r.2 as int,
        reached,
        top,
        name_matcher,
        url_matcher,
        scope.window,
        min_ts,
    ));
    r
}

/// A node takes no more inclusive time than its parent.
pub proof fn lemma_inclusive_grows(f: Forest, i: int)
    requires
        forest_ok(f),
        0 <= i < f.parent@.len(),
        f.parent@[i] is Some,
        depth(f.parent@, i) is Some,
    ensures
        inclusive(f, i) <= inclusive(f, f.parent@[i]->0 as int),
{
    lemma_inclusive_prefix(f, i, f.parent@.len() as int);
    let s = places(f.parent@.len());
    assert(s.take(s.len() as int) =~= s);
}

proof fn lemma_inclusive_prefix(f: Forest, i: int, k: int)
    requires
        forest_ok(f),
        0 <= i < f.parent@.len(),
        f.parent@[i] is Some,
        depth(f.parent@, i) is Some,
        0 <= k <= f.parent@.len(),
    ensures
        total(places(f.parent@.len()).take(k), below_time(f, i)) <= total(
            places(f.parent@.len()).take(k),
            below_time(f, f.parent@[i]->0 as int),
        ),
    decreases k,
{
    let s = places(f.parent@.len());
    let q = f.parent@[i]->0 as int;
    if k > 0 {
        lemma_inclusive_prefix(f, i, k - 1);
        lemma_total_step(s, below_time(f, i), k - 1);
        lemma_total_step(s, below_time(f, q), k - 1);
        assert(f.own@[k - 1] >= 0);
        if above(f.parent@, i, k - 1) {
            if depth(f.parent@, k - 1) is Some {
                lemma_up_step(f.parent@, k - 1, i);
            }
        }
    } else {
        assert(s.take(0) =~= Seq::<usize>::empty());
    }
}

} // verus!
