//! JSON values that the library writes: numbers as exact decimal texts, times
//! in microseconds.

use vstd::prelude::*;
use vstd::arithmetic::div_mod::{lemma_div_denominator, lemma_hoist_over_denominator};
use crate::doc::{abs, magnitude};
use crate::json::{json_views, lemma_array_view, lemma_object_view, Json, JsonView};
use crate::text::{decimal, digit_char, u128_text, u64_text};

verus! {

/// The sign of a number.
pub open spec fn sign_text(v: int) -> Seq<char> {
    if v < 0 {
        seq!['-']
    } else {
        Seq::empty()
    }
}

/// Thousandths, without the zeros at their end; one digit at least.
pub open spec fn thousandths(f: nat) -> Seq<char> {
    if f % 100 == 0 {
        seq![digit_char(f / 100)]
    } else if f % 10 == 0 {
        seq![digit_char(f / 100), digit_char(f / 10 % 10)]
    } else {
        seq![digit_char(f / 100), digit_char(f / 10 % 10), digit_char(f % 10)]
    }
}

/// A number that is given in thousandths, in decimal.
pub open spec fn milli_text(v: int) -> Seq<char> {
    sign_text(v) + decimal(magnitude(v) / 1000) + seq!['.'] + thousandths(magnitude(v) % 1000)
}

/// A whole number, with the decimal of one that need not be whole.
pub open spec fn whole_text(v: int) -> Seq<char> {
    sign_text(v) + decimal(magnitude(v)) + seq!['.', '0']
}

/// The nearest whole microsecond; halves away from zero.
pub open spec fn rounded_us(ns: int) -> int {
    if ns < 0 {
        -((500 - ns) / 1000)
    } else {
        (ns + 500) / 1000
    }
}

fn put_sign(s: &mut String, v: i128)
    ensures
        final(s)@ == old(s)@ + sign_text(v as int),
{
    if v < 0 {
        s.push('-');
    }
    assert(s@ =~= old(s)@ + sign_text(v as int));
}

/// Write a number that is given in thousandths.
pub fn milli(v: i128) -> (r: String)
    ensures
        r@ == milli_text(v as int),
{
    let n: u128 = abs(v);
    let f: u32 = (n % 1000) as u32;
    let mut s = String::new();
    put_sign(&mut s, v);
    s.append(u128_text(n / 1000).as_str());
    s.push('.');
    s.push((48 + (f / 100) as u8) as char);
    if f % 100 != 0 {
        s.push((48 + (f / 10 % 10) as u8) as char);
        if f % 10 != 0 {
            s.push((48 + (f % 10) as u8) as char);
        }
    }
    assert(s@ =~= milli_text(v as int));
    s
}

/// Write a whole number.
pub fn whole(v: i128) -> (r: String)
    ensures
        r@ == whole_text(v as int),
{
    let mut s = String::new();
    put_sign(&mut s, v);
    s.append(u128_text(abs(v)).as_str());
    s.push('.');
    s.push('0');
    assert(s@ =~= whole_text(v as int));
    s
}

/// The nearest whole microsecond.
pub fn round_us(ns: i128) -> (r: i128)
    ensures
        r == rounded_us(ns as int),
{
    let whole: i128 = ns / 1000;
    let rest: i128 = ns % 1000;
    if rest >= 500 {
        whole + 1
    } else if rest <= -500 {
        whole - 1
    } else {
        whole
    }
}

/// The members of an object, in their order.
pub open spec fn members_of(m: Seq<(String, Json)>) -> Seq<(Seq<char>, JsonView)> {
    Seq::new(m.len(), |i: int| (m[i].0@, m[i].1@))
}

/// Append a member.
pub fn put_member(m: &mut Vec<(String, Json)>, key: &str, v: Json)
    ensures
        members_of(final(m)@) == members_of(old(m)@).push((key@, v@)),
{
    m.push((key.to_string(), v));
    assert(members_of(m@) =~= members_of(old(m)@).push((key@, v@)));
}

/// The members of an empty object.
pub fn no_members() -> (m: Vec<(String, Json)>)
    ensures
        members_of(m@) == Seq::<(Seq<char>, JsonView)>::empty(),
{
    let m: Vec<(String, Json)> = Vec::new();
    assert(members_of(m@) =~= Seq::<(Seq<char>, JsonView)>::empty());
    m
}

/// An object with the given members.
pub fn object(m: Vec<(String, Json)>) -> (r: Json)
    ensures
        r@ == JsonView::Obj(members_of(m@)),
{
    proof {
        lemma_object_view(m);
        assert(Json::Obj(m)@->Obj_0 =~= members_of(m@));
    }
    Json::Obj(m)
}

/// An array of the given values.
pub fn array(a: Vec<Json>) -> (r: Json)
    ensures
        r@ == JsonView::Arr(json_views(a@)),
{
    proof {
        lemma_array_view(a);
        assert(Json::Arr(a)@->Arr_0 =~= json_views(a@));
    }
    Json::Arr(a)
}

/// A time as a JSON number, in whole microseconds.
pub open spec fn time_json(ns: int) -> JsonView {
    JsonView::Number(whole_text(rounded_us(ns)))
}

/// Write a time.
pub fn time_value(ns: i128) -> (r: Json)
    ensures
        r@ == time_json(ns as int),
{
    Json::Number(whole(round_us(ns)))
}

/// A quotient of nanoseconds, in the nearest whole microsecond, halves away
/// from zero; zero where it has no denominator.
pub open spec fn mean_us(num: int, den: int) -> int {
    if den <= 0 {
        0
    } else if num < 0 {
        -((500 * den - num) / (1000 * den))
    } else {
        (num + 500 * den) / (1000 * den)
    }
}

/// Cutting a quotient off to nanoseconds makes no difference to the nearest
/// microsecond.
proof fn lemma_mean(num: int, den: int)
    requires
        num >= 0,
        den > 0,
    ensures
        (num + 500 * den) / (1000 * den) == (num / den + 500) / 1000,
{
    lemma_div_denominator(num + 500 * den, den, 1000);
    lemma_hoist_over_denominator(num, 500, den as nat);
    assert(den * 1000 == 1000 * den);
}

/// A time that is a quotient as a JSON number.
pub open spec fn mean_json(num: int, den: int) -> JsonView {
    JsonView::Number(whole_text(mean_us(num, den)))
}

/// Write a time that is a quotient.
pub fn mean_value(num: i128, den: i128) -> (r: Json)
    ensures
        r@ == mean_json(num as int, den as int),
{
    if den <= 0 {
        return Json::Number(whole(0));
    }
    proof {
        if num < 0 {
            lemma_mean(-num, den as int);
        } else {
            lemma_mean(num as int, den as int);
        }
    }
    time_value(num / den)
}

/// A count as a JSON number.
pub open spec fn count_json(n: nat) -> JsonView {
    JsonView::Number(decimal(n))
}

/// Write a count.
pub fn count_value(n: u64) -> (r: Json)
    ensures
        r@ == count_json(n as nat),
{
    Json::Number(u64_text(n))
}

/// Write a text.
pub fn text_value(s: &str) -> (r: Json)
    ensures
        r@ == JsonView::Str(s@),
{
    Json::Str(s.to_string())
}

/// A copy of a value.
pub fn copy_json(v: &Json) -> (r: Json)
    ensures
        r@ == v@,
    decreases v,
{
    match v {
        Json::Null => Json::Null,
        Json::Bool(b) => Json::Bool(*b),
        Json::Number(t) => Json::Number(t.clone()),
        Json::Str(s) => Json::Str(s.clone()),
        Json::Arr(a) => {
            let mut out: Vec<Json> = Vec::new();
            let mut i: usize = 0;
            while i < a.len()
                invariant
                    i <= a@.len(),
                    *v == Json::Arr(*a),
                    out@.len() == i,
                    forall|k: int| 0 <= k < i ==> (#[trigger] out@[k])@ == a@[k]@,
                decreases a@.len() - i,
            {
                assert(decreases_to!(*v => v->Arr_0));
                assert(decreases_to!(*a => a@));
                assert(decreases_to!(a@ => a@[i as int]));
                out.push(copy_json(&a[i]));
                i = i + 1;
            }
            proof {
                lemma_array_view(out);
                lemma_array_view(*a);
            }
            let r = Json::Arr(out);
            assert(r@->Arr_0 =~= v@->Arr_0);
            r
        },
        Json::Obj(m) => {
            let mut out: Vec<(String, Json)> = Vec::new();
            let mut i: usize = 0;
            while i < m.len()
                invariant
                    i <= m@.len(),
                    *v == Json::Obj(*m),
                    out@.len() == i,
                    forall|k: int|
                        0 <= k < i ==> (#[trigger] out@[k]).0@ == m@[k].0@ && out@[k].1@ == m@[k].1@,
                decreases m@.len() - i,
            {
                assert(decreases_to!(*v => v->Obj_0));
                assert(decreases_to!(*m => m@));
                assert(decreases_to!(m@ => m@[i as int]));
                assert(decreases_to!(m@[i as int] => m@[i as int].1));
                out.push((m[i].0.clone(), copy_json(&m[i].1)));
                i = i + 1;
            }
            proof {
                lemma_object_view(out);
                lemma_object_view(*m);
            }
            let r = Json::Obj(out);
            assert(r@->Obj_0 =~= v@->Obj_0);
            r
        },
    }
}

} // verus!
