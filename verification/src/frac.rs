//! Fractions of natural numbers, compared exactly, and the largest of a list.

use vstd::prelude::*;
use crate::sort::{holds, lemma_held_push, lemma_removed};

verus! {

/// A fraction; the denominator is not zero.
#[derive(Clone, Copy)]
pub struct Frac {
    pub num: u128,
    pub den: u128,
}

/// `a` is less than `b`.
pub open spec fn frac_less(a: Frac, b: Frac) -> bool {
    a.num * b.den < b.num * a.den
}

proof fn lemma_quotients(a: Frac, b: Frac)
    requires
        a.den > 0,
        b.den > 0,
        a.num / a.den < b.num / b.den,
    ensures
        frac_less(a, b),
{
    let qa = (a.num / a.den) as int;
    let ra = (a.num % a.den) as int;
    let qb = (b.num / b.den) as int;
    let rb = (b.num % b.den) as int;
    let (an, ad, bn, bd) = (a.num as int, a.den as int, b.num as int, b.den as int);
    vstd::arithmetic::div_mod::lemma_fundamental_div_mod(an, ad);
    vstd::arithmetic::div_mod::lemma_fundamental_div_mod(bn, bd);
    assert(an * bd < bn * ad) by (nonlinear_arith)
        requires
            an == ad * qa + ra,
            bn == bd * qb + rb,
            0 <= ra < ad,
            0 <= rb < bd,
            qa < qb,
            0 <= qa,
            ad > 0,
            bd > 0,
    ;
}

/// With equal whole parts the fractions compare as their remainders do.
proof fn lemma_remainders(a: Frac, b: Frac)
    requires
        a.den > 0,
        b.den > 0,
        a.num / a.den == b.num / b.den,
    ensures
        frac_less(a, b) <==> (a.num % a.den) * b.den < (b.num % b.den) * a.den,
{
    let q = (a.num / a.den) as int;
    let ra = (a.num % a.den) as int;
    let rb = (b.num % b.den) as int;
    let (an, ad, bn, bd) = (a.num as int, a.den as int, b.num as int, b.den as int);
    vstd::arithmetic::div_mod::lemma_fundamental_div_mod(an, ad);
    vstd::arithmetic::div_mod::lemma_fundamental_div_mod(bn, bd);
    assert(an * bd == q * (ad * bd) + ra * bd) by (nonlinear_arith)
        requires
            an == ad * q + ra,
    ;
    assert(bn * ad == q * (ad * bd) + rb * ad) by (nonlinear_arith)
        requires
            bn == bd * q + rb,
    ;
}

/// Whether `a` is less than `b`, by their whole parts and then, turned over,
/// by their remainders.
pub fn is_less(a: Frac, b: Frac) -> (r: bool)
    requires
        a.den > 0,
        b.den > 0,
    ensures
        r == frac_less(a, b),
    decreases a.den + b.den,
{
    let qa: u128 = a.num / a.den;
    let qb: u128 = b.num / b.den;
    if qa != qb {
        proof {
            if qa < qb {
                lemma_quotients(a, b);
            } else {
                lemma_quotients(b, a);
            }
        }
        return qa < qb;
    }
    let ra: u128 = a.num % a.den;
    let rb: u128 = b.num % b.den;
    proof {
        lemma_remainders(a, b);
    }
    if rb == 0 {
        assert(ra * b.den >= 0 && rb * a.den == 0) by (nonlinear_arith)
            requires
                rb == 0,
        ;
        return false;
    }
    if ra == 0 {
        assert(rb * a.den > 0 && ra * b.den == 0) by (nonlinear_arith)
            requires
                ra == 0,
                rb > 0,
                a.den > 0,
        ;
        return true;
    }
    proof {
        assert(ra * b.den == b.den * ra) by (nonlinear_arith);
        assert(rb * a.den == a.den * rb) by (nonlinear_arith);
    }
    is_less(Frac { num: b.den, den: rb }, Frac { num: a.den, den: ra })
}

/// Fractions are ordered: what is not less than a second is not less than what
/// that is not less than.
pub proof fn lemma_frac_order(a: Frac, b: Frac, c: Frac)
    requires
        a.den > 0,
        b.den > 0,
        c.den > 0,
        !frac_less(a, b),
        !frac_less(b, c),
    ensures
        !frac_less(a, c),
        frac_less(b, a) || frac_less(c, b) ==> frac_less(c, a),
{
    let (an, ad, bn, bd, cn, cd) = (
        a.num as int,
        a.den as int,
        b.num as int,
        b.den as int,
        c.num as int,
        c.den as int,
    );
    assert(cn * ad <= an * cd) by (nonlinear_arith)
        requires
            bn * ad <= an * bd,
            cn * bd <= bn * cd,
            ad > 0,
            bd > 0,
            cd > 0,
            an >= 0,
            bn >= 0,
            cn >= 0,
    {
        assert(cn * bd * ad <= bn * cd * ad) by (nonlinear_arith)
            requires
                cn * bd <= bn * cd,
                ad > 0,
        ;
        assert(bn * ad * cd <= an * bd * cd) by (nonlinear_arith)
            requires
                bn * ad <= an * bd,
                cd > 0,
        ;
        assert((cn * ad) * bd <= (an * cd) * bd) by (nonlinear_arith)
            requires
                cn * bd * ad <= bn * cd * ad,
                bn * ad * cd <= an * bd * cd,
        ;
        assert(cn * ad <= an * cd) by (nonlinear_arith)
            requires
                (cn * ad) * bd <= (an * cd) * bd,
                bd > 0,
        ;
    }
    if bn * ad < an * bd || cn * bd < bn * cd {
        assert(cn * ad < an * cd) by (nonlinear_arith)
            requires
                bn * ad <= an * bd,
                cn * bd <= bn * cd,
                bn * ad < an * bd || cn * bd < bn * cd,
                ad > 0,
                bd > 0,
                cd > 0,
        {
            let x = cn * bd;
            let y = bn * cd;
            let u = bn * ad;
            let v = an * bd;
            if cn * bd < bn * cd {
                assert(cn * bd * ad < bn * cd * ad) by (nonlinear_arith)
                    requires
                        cn * bd < bn * cd,
                        ad > 0,
                ;
                assert(bn * ad * cd <= an * bd * cd) by (nonlinear_arith)
                    requires
                        bn * ad <= an * bd,
                        cd > 0,
                ;
                assert((cn * ad) * bd < (an * cd) * bd) by (nonlinear_arith)
                    requires
                        cn * bd * ad < bn * cd * ad,
                        bn * ad * cd <= an * bd * cd,
                ;
            } else {
                assert(cn * bd * ad <= bn * cd * ad) by (nonlinear_arith)
                    requires
                        cn * bd <= bn * cd,
                        ad > 0,
                ;
                assert(bn * ad * cd < an * bd * cd) by (nonlinear_arith)
                    requires
                        bn * ad < an * bd,
                        cd > 0,
                ;
                assert((cn * ad) * bd < (an * cd) * bd) by (nonlinear_arith)
                    requires
                        cn * bd * ad <= bn * cd * ad,
                        bn * ad * cd < an * bd * cd,
                ;
            }
            assert(cn * ad < an * cd) by (nonlinear_arith)
                requires
                    (cn * ad) * bd < (an * cd) * bd,
                    bd > 0,
            ;
        }
    }
}

/// Every denominator of the list is positive.
pub open spec fn proper(keys: Seq<Frac>) -> bool {
    forall|i: int| 0 <= i < keys.len() ==> (#[trigger] keys[i]).den > 0
}

/// Position `i` ranks before `j`: the larger fraction first, and by position
/// where they are equal.
pub open spec fn larger_first(keys: Seq<Frac>, i: int, j: int) -> bool {
    frac_less(keys[j], keys[i]) || !frac_less(keys[i], keys[j]) && i < j
}

/// `top` holds the positions of the `n` largest fractions, in rank order.
pub open spec fn largest_first(keys: Seq<Frac>, n: nat, top: Seq<usize>) -> bool {
    &&& top.len() == if keys.len() < n {
        keys.len()
    } else {
        n
    }
    &&& forall|i: int| 0 <= i < top.len() ==> (#[trigger] top[i]) < keys.len()
    &&& forall|i: int, j: int|
        0 <= i < j < top.len() ==> larger_first(keys, #[trigger] top[i] as int, #[trigger] top[j] as int)
    &&& forall|i: int, x: int|
        0 <= i < top.len() && 0 <= x < keys.len() && !holds(top, x) ==> #[trigger] larger_first(
            keys,
            top[i] as int,
            x,
        )
}

/// Where in `rest` the position stands that ranks first of them.
fn best_of(keys: &Vec<Frac>, rest: &Vec<usize>) -> (r: usize)
    requires
        proper(keys@),
        rest@.len() > 0,
        forall|i: int| 0 <= i < rest@.len() ==> (#[trigger] rest@[i]) < keys@.len(),
        forall|i: int, j: int| 0 <= i < j < rest@.len() ==> (#[trigger] rest@[i]) < (#[trigger] rest@[j]),
    ensures
        r < rest@.len(),
        forall|j: int|
            0 <= j < rest@.len() && j != r ==> larger_first(
                keys@,
                rest@[r as int] as int,
                #[trigger] rest@[j] as int,
            ),
{
    let mut best: usize = 0;
    let mut k: usize = 1;
    while k < rest.len()
        invariant
            proper(keys@),
            1 <= k <= rest@.len(),
            best < k,
            forall|i: int| 0 <= i < rest@.len() ==> (#[trigger] rest@[i]) < keys@.len(),
            forall|i: int, j: int|
                0 <= i < j < rest@.len() ==> (#[trigger] rest@[i]) < (#[trigger] rest@[j]),
            forall|j: int|
                0 <= j < k && j != best ==> larger_first(
                    keys@,
                    rest@[best as int] as int,
                    #[trigger] rest@[j] as int,
                ),
        decreases rest@.len() - k,
    {
        let x = keys[rest[k]];
        let y = keys[rest[best]];
        assert(rest@[best as int] < rest@[k as int]);
        assert(x.den > 0 && y.den > 0);
        if is_less(y, x) {
            proof {
                assert(!frac_less(x, y));
                assert forall|j: int| 0 <= j < k + 1 && j != k implies larger_first(
                    keys@,
                    rest@[k as int] as int,
                    #[trigger] rest@[j] as int,
                ) by {
                    if j != best {
                        assert(larger_first(keys@, rest@[best as int] as int, rest@[j] as int));
                        let z = keys@[rest@[j] as int];
                        assert(z.den > 0);
                        assert(!frac_less(y, z));
                        lemma_frac_order(x, y, z);
                    }
                }
            }
            best = k;
        }
        k = k + 1;
    }
    best
}

/// The positions of the `n` largest fractions, in rank order.
pub fn top_fracs(keys: &Vec<Frac>, n: usize) -> (top: Vec<usize>)
    requires
        proper(keys@),
    ensures
        largest_first(keys@, n as nat, top@),
{
    let len = keys.len();
    let mut rest: Vec<usize> = Vec::new();
    let mut i: usize = 0;
    while i < len
        invariant
            i <= len,
            rest@.len() == i,
            forall|k: int| 0 <= k < i ==> #[trigger] rest@[k] == k,
        decreases len - i,
    {
        rest.push(i);
        i = i + 1;
    }
    assert forall|x: int| 0 <= x < len implies #[trigger] holds(rest@, x) by {
        assert(rest@[x] == x);
    }
    let mut top: Vec<usize> = Vec::new();
    while rest.len() > 0 && top.len() < n
        invariant
            proper(keys@),
            len == keys@.len(),
            rest@.len() + top@.len() == len,
            top@.len() <= n,
            forall|k: int| 0 <= k < rest@.len() ==> (#[trigger] rest@[k]) < len,
            forall|k: int, l: int|
                0 <= k < l < rest@.len() ==> (#[trigger] rest@[k]) < (#[trigger] rest@[l]),
            forall|k: int| 0 <= k < top@.len() ==> (#[trigger] top@[k]) < len,
            forall|x: int| 0 <= x < len ==> (#[trigger] holds(rest@, x) <==> !holds(top@, x)),
            forall|k: int, l: int|
                0 <= k < l < top@.len() ==> larger_first(
                    keys@,
                    #[trigger] top@[k] as int,
                    #[trigger] top@[l] as int,
                ),
            forall|k: int, x: int|
                0 <= k < top@.len() && 0 <= x < len && !holds(top@, x) ==> #[trigger] larger_first(
                    keys@,
                    top@[k] as int,
                    x,
                ),
        decreases rest@.len(),
    {
        let ghost top0 = top@;
        let ghost rest0 = rest@;
        let at = best_of(keys, &rest);
        let k = rest.remove(at);
        proof {
            lemma_removed(rest0, rest@, at as int);
            assert(holds(rest0, k as int)) by {
                assert(rest0[at as int] == k);
            }
        }
        top.push(k);
        proof {
            lemma_held_push(top0, k);
            assert forall|a: int, b: int| 0 <= a < b < top@.len() implies larger_first(
                keys@,
                #[trigger] top@[a] as int,
                #[trigger] top@[b] as int,
            ) by {
                assert(top@[a] == top0[a]);
                if b < top0.len() {
                    assert(top@[b] == top0[b]);
                } else {
                    assert(!holds(top0, k as int));
                    assert(larger_first(keys@, top0[a] as int, k as int));
                }
            }
            assert forall|a: int, x: int|
                0 <= a < top@.len() && 0 <= x < len && !holds(top@, x) implies #[trigger] larger_first(
                keys@,
                top@[a] as int,
                x,
            ) by {
                assert(!holds(top0, x) && x != k);
                if a < top0.len() {
                    assert(larger_first(keys@, top0[a] as int, x));
                } else {
                    assert(holds(rest0, x));
                    let w = choose|w: int| 0 <= w < rest0.len() && #[trigger] rest0[w] == x;
                    assert(larger_first(keys@, rest0[at as int] as int, rest0[w] as int));
                }
            }
            assert forall|c: int| 0 <= c < rest@.len() implies (#[trigger] rest@[c]) < len by {
                assert(holds(rest@, rest@[c] as int));
                assert(holds(rest0, rest@[c] as int));
            }
        }
    }
    top
}

} // verus!
