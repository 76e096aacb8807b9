//! JSON values as the library reads them, parsed by the `serde_json` crate.

use vstd::prelude::*;
use vstd::string::StringSliceAdditionalSpecFns;
use vstd::utf8::encode_utf8;
use crate::text::{chars_of, same};
use crate::trace::number::{decimal, number_end, parse_decimal, skip_number, ticks_of};

verus! {

/// A JSON value. A number is kept as its decimal text; an object's members
/// stand in the order of the parsed map.
pub enum Json {
    Null,
    Bool(bool),
    Number(String),
    Str(String),
    Arr(Vec<Json>),
    Obj(Vec<(String, Json)>),
}

/// What a JSON value holds.
pub enum JsonView {
    Null,
    Bool(bool),
    Number(Seq<char>),
    Str(Seq<char>),
    Arr(Seq<JsonView>),
    Obj(Seq<(Seq<char>, JsonView)>),
}

/// What a JSON value holds.
pub open spec fn json_view(j: Json) -> JsonView
    decreases j,
{
    match j {
        Json::Null => JsonView::Null,
        Json::Bool(b) => JsonView::Bool(b),
        Json::Number(t) => JsonView::Number(t@),
        Json::Str(s) => JsonView::Str(s@),
        Json::Arr(a) => JsonView::Arr(items_view(a@, a@.len())),
        Json::Obj(m) => JsonView::Obj(members_view(m@, m@.len())),
    }
}

/// What the first `n` items hold.
pub open spec fn items_view(a: Seq<Json>, n: nat) -> Seq<JsonView>
    decreases a, n,
{
    if n == 0 || n > a.len() {
        Seq::empty()
    } else {
        items_view(a, (n - 1) as nat).push(json_view(a[n - 1]))
    }
}

/// What the first `n` members hold.
pub open spec fn members_view(m: Seq<(String, Json)>, n: nat) -> Seq<(Seq<char>, JsonView)>
    decreases m, n,
{
    if n == 0 || n > m.len() {
        Seq::empty()
    } else {
        members_view(m, (n - 1) as nat).push((m[n - 1].0@, json_view(m[n - 1].1)))
    }
}

impl View for Json {
    type V = JsonView;

    open spec fn view(&self) -> JsonView {
        json_view(*self)
    }
}

proof fn lemma_items_view(a: Seq<Json>, n: nat)
    requires
        n <= a.len(),
    ensures
        items_view(a, n).len() == n,
        forall|i: int| 0 <= i < n ==> #[trigger] items_view(a, n)[i] == a[i]@,
    decreases n,
{
    if n > 0 {
        lemma_items_view(a, (n - 1) as nat);
    }
}

proof fn lemma_members_view(m: Seq<(String, Json)>, n: nat)
    requires
        n <= m.len(),
    ensures
        members_view(m, n).len() == n,
        forall|i: int| 0 <= i < n ==> #[trigger] members_view(m, n)[i] == (m[i].0@, m[i].1@),
    decreases n,
{
    if n > 0 {
        lemma_members_view(m, (n - 1) as nat);
    }
}

/// What the items of an array hold.
pub open spec fn item_views(a: Seq<Json>, s: Seq<JsonView>) -> bool {
    s.len() == a.len() && forall|i: int| 0 <= i < s.len() ==> #[trigger] s[i] == a[i]@
}

/// What the members of an object hold.
pub open spec fn member_views(m: Seq<(String, Json)>, s: Seq<(Seq<char>, JsonView)>) -> bool {
    s.len() == m.len() && forall|i: int|
        0 <= i < s.len() ==> #[trigger] s[i] == (m[i].0@, m[i].1@)
}

/// What an array holds.
pub proof fn lemma_array_view(a: Vec<Json>)
    ensures
        Json::Arr(a)@ is Arr,
        item_views(a@, Json::Arr(a)@->Arr_0),
{
    lemma_items_view(a@, a@.len());
}

/// What an object holds.
pub proof fn lemma_object_view(m: Vec<(String, Json)>)
    ensures
        Json::Obj(m)@ is Obj,
        member_views(m@, Json::Obj(m)@->Obj_0),
{
    lemma_members_view(m@, m@.len());
}

/// The parsed value of the `serde_json` crate.
#[verifier::external_type_specification]
#[verifier::external_body]
pub struct ExValue(serde_json::Value);

/// What a parsed value holds.
pub uninterp spec fn value_holds(v: serde_json::Value) -> JsonView;

/// The value that `serde_json` parses a text to; `None` where it reports an
/// error.
pub uninterp spec fn parsed_json(text: Seq<char>) -> Option<JsonView>;

/// A parsed value, taken apart by one level.
pub enum Shape {
    Null,
    Bool(bool),
    Number(String),
    Str(String),
    Arr(Vec<serde_json::Value>),
    Obj(Vec<(String, serde_json::Value)>),
}

/// What the value holds that was taken apart into `s`.
pub open spec fn shape_holds(s: Shape) -> JsonView {
    match s {
        Shape::Null => JsonView::Null,
        Shape::Bool(b) => JsonView::Bool(b),
        Shape::Number(t) => JsonView::Number(t@),
        Shape::Str(t) => JsonView::Str(t@),
        Shape::Arr(a) => JsonView::Arr(Seq::new(a@.len(), |i: int| value_holds(a@[i]))),
        Shape::Obj(m) => JsonView::Obj(
            Seq::new(m@.len(), |i: int| (m@[i].0@, value_holds(m@[i].1))),
        ),
    }
}

/// `serde_json::from_str` into a `serde_json::Value`: what it parses a text to,
/// or whether it fails, depends on the text alone.
#[verifier::external_body]
fn parse_value(text: &str) -> (r: Option<serde_json::Value>)
    ensures
        match r {
            Some(v) => parsed_json(text@) == Some(value_holds(v)),
            None => parsed_json(text@) is None,
        },
{
    serde_json::from_str::<serde_json::Value>(text).ok()
}

/// The variant of a `serde_json::Value` with its fields: a number as its
/// decimal text, an array's values and an object's members in their order.
#[verifier::external_body]
fn take_apart(v: serde_json::Value) -> (r: Shape)
    ensures
        shape_holds(r) == value_holds(v),
{
    match v {
        serde_json::Value::Null => Shape::Null,
        serde_json::Value::Bool(b) => Shape::Bool(b),
        serde_json::Value::Number(n) => Shape::Number(n.to_string()),
        serde_json::Value::String(s) => Shape::Str(s),
        serde_json::Value::Array(a) => Shape::Arr(a),
        serde_json::Value::Object(m) => Shape::Obj(m.into_iter().collect()),
    }
}

/// Convert a parsed value, level by level.
fn convert(v: serde_json::Value) -> (r: Json)
    ensures
        r@ == value_holds(v),
    decreases value_holds(v),
{
    let ghost model = value_holds(v);
    match take_apart(v) {
        Shape::Null => Json::Null,
        Shape::Bool(b) => Json::Bool(b),
        Shape::Number(t) => Json::Number(t),
        Shape::Str(s) => Json::Str(s),
        Shape::Arr(a) => {
            let ghost all = a@;
            let mut out: Vec<Json> = Vec::new();
            for item in it: a
                invariant
                    it.seq() == all,
                    out@.len() == it.index(),
                    model == JsonView::Arr(Seq::new(all.len(), |i: int| value_holds(all[i]))),
                    model == value_holds(v),
                    forall|i: int| 0 <= i < out@.len() ==> (#[trigger] out@[i])@ == value_holds(all[i]),
            {
                proof {
                    let s = model->Arr_0;
                    assert(s[it.index()] == value_holds(item));
                    assert(decreases_to!(s => s[it.index()]));
                }
                out.push(convert(item));
            }
            proof {
                lemma_array_view(out);
            }
            let r = Json::Arr(out);
            assert(r@->Arr_0 =~= model->Arr_0);
            r
        },
        Shape::Obj(m) => {
            let ghost all = m@;
            let mut out: Vec<(String, Json)> = Vec::new();
            for item in it: m
                invariant
                    it.seq() == all,
                    out@.len() == it.index(),
                    model == JsonView::Obj(
                        Seq::new(all.len(), |i: int| (all[i].0@, value_holds(all[i].1))),
                    ),
                    model == value_holds(v),
                    forall|i: int|
                        0 <= i < out@.len() ==> (#[trigger] out@[i]).0@ == all[i].0@ && out@[i].1@
                            == value_holds(all[i].1),
            {
                let (key, value) = item;
                proof {
                    let s = model->Obj_0;
                    assert(s[it.index()].1 == value_holds(value));
                    assert(decreases_to!(s => s[it.index()]));
                    assert(decreases_to!(s[it.index()] => s[it.index()].1));
                }
                out.push((key, convert(value)));
            }
            proof {
                lemma_object_view(out);
            }
            let r = Json::Obj(out);
            assert(r@->Obj_0 =~= model->Obj_0);
            r
        },
    }
}

/// Parse a JSON text; `None` when it is not valid JSON.
pub fn parse_json(text: &str) -> (r: Option<Json>)
    ensures
        match r {
            Some(j) => parsed_json(text@) == Some(j@),
            None => parsed_json(text@) is None,
        },
{
    match parse_value(text) {
        Some(v) => Some(convert(v)),
        None => None,
    }
}

/// The value of the first member of `m` with the given key.
pub open spec fn member_of(m: Seq<(Seq<char>, JsonView)>, key: Seq<char>) -> Option<JsonView>
    decreases m.len(),
{
    if m.len() == 0 {
        None
    } else if m[0].0 == key {
        Some(m[0].1)
    } else {
        member_of(m.drop_first(), key)
    }
}

/// The member `key` of an object; `None` for any other value.
pub open spec fn member(j: JsonView, key: Seq<char>) -> Option<JsonView> {
    match j {
        JsonView::Obj(m) => member_of(m, key),
        _ => None,
    }
}

/// The member `key` of a value that may be missing.
pub open spec fn member_opt(j: Option<JsonView>, key: Seq<char>) -> Option<JsonView> {
    match j {
        Some(v) => member(v, key),
        None => None,
    }
}

/// The characters of a string value.
pub open spec fn str_opt(j: Option<JsonView>) -> Option<Seq<char>> {
    match j {
        Some(JsonView::Str(s)) => Some(s),
        _ => None,
    }
}

/// The items of an array value.
pub open spec fn items_opt(j: Option<JsonView>) -> Option<Seq<JsonView>> {
    match j {
        Some(JsonView::Arr(a)) => Some(a),
        _ => None,
    }
}

/// What the values of a list hold.
pub open spec fn json_views(a: Seq<Json>) -> Seq<JsonView> {
    Seq::new(a.len(), |i: int| a[i]@)
}

/// The number that a text of digits writes, when it is one and fits.
pub open spec fn digits_number(t: Seq<char>) -> Option<u64> {
    let v = chars_value(t);
    if t.len() > 0 && all_digits(t) && v <= u64::MAX {
        Some(v as u64)
    } else {
        None
    }
}

pub open spec fn all_digits(t: Seq<char>) -> bool {
    forall|i: int| 0 <= i < t.len() ==> '0' <= #[trigger] t[i] <= '9'
}

/// The number that a sequence of digit characters writes.
pub open spec fn chars_value(t: Seq<char>) -> nat
    decreases t.len(),
{
    if t.len() == 0 {
        0
    } else {
        (chars_value(t.drop_last()) * 10 + (t.last() as u32 - '0' as u32)) as nat
    }
}

/// The value of a non-negative integer.
pub open spec fn u64_opt(j: Option<JsonView>) -> Option<u64> {
    match j {
        Some(JsonView::Number(t)) => digits_number(t),
        _ => None,
    }
}

/// The number that a text of digits writes, when it is one and fits.
pub fn number_of_digits(t: &str) -> (r: Option<u64>)
    ensures
        r == digits_number(t@),
{
    let c = chars_of(t);
    if c.len() == 0 {
        return None;
    }
    let mut acc: u64 = 0;
    let mut over = false;
    let mut i: usize = 0;
    assert(c@.take(0) =~= Seq::<char>::empty());
    while i < c.len()
        invariant
            c@ == t@,
            i <= c@.len(),
            forall|j: int| 0 <= j < i ==> '0' <= #[trigger] c@[j] <= '9',
            over ==> chars_value(c@.take(i as int)) > u64::MAX,
            !over ==> acc == chars_value(c@.take(i as int)),
        decreases c@.len() - i,
    {
        let ch = c[i];
        if ch < '0' || ch > '9' {
            return None;
        }
        assert(c@.take(i + 1).drop_last() =~= c@.take(i as int));
        assert(c@.take(i + 1).last() == ch);
        let d: u64 = (ch as u32 - '0' as u32) as u64;
        if !over {
            if acc > (u64::MAX - d) / 10 {
                over = true;
            } else {
                acc = acc * 10 + d;
            }
        }
        i = i + 1;
    }
    assert(c@.take(c@.len() as int) =~= c@);
    if over {
        None
    } else {
        Some(acc)
    }
}

impl Json {
    /// The member `key` of an object.
    pub fn get(&self, key: &str) -> (r: Option<&Json>)
        ensures
            json_opt(r) == member(self@, key@),
    {
        match self {
            Json::Obj(m) => {
                let ghost all = self@->Obj_0;
                proof {
                    lemma_object_view(*m);
                    assert(all.subrange(0, all.len() as int) =~= all);
                }
                let mut i: usize = 0;
                while i < m.len()
                    invariant
                        i <= m@.len(),
                        member_views(m@, all),
                        member(self@, key@) == member_of(all.subrange(i as int, all.len() as int), key@),
                    decreases m@.len() - i,
                {
                    proof {
                        let rest = all.subrange(i as int, all.len() as int);
                        assert(rest.drop_first() =~= all.subrange(i + 1, all.len() as int));
                        assert(rest[0] == all[i as int]);
                    }
                    if same(m[i].0.as_str(), key) {
                        return Some(&m[i].1);
                    }
                    i = i + 1;
                }
                None
            },
            _ => None,
        }
    }

    /// The value as a string.
    pub fn as_str(&self) -> (r: Option<&str>)
        ensures
            match r {
                Some(s) => str_opt(Some(self@)) == Some(s@),
                None => str_opt(Some(self@)) is None,
            },
    {
        match self {
            Json::Str(s) => Some(s.as_str()),
            _ => None,
        }
    }

    /// The value as an array.
    pub fn as_array(&self) -> (r: Option<&Vec<Json>>)
        ensures
            match r {
                Some(a) => items_opt(Some(self@)) == Some(json_views(a@)),
                None => items_opt(Some(self@)) is None,
            },
    {
        match self {
            Json::Arr(a) => {
                proof {
                    lemma_array_view(*a);
                    assert(self@->Arr_0 =~= json_views(a@));
                }
                Some(a)
            },
            _ => None,
        }
    }

    /// The value as a non-negative integer.
    pub fn as_u64(&self) -> (r: Option<u64>)
        ensures
            r == u64_opt(Some(self@)),
    {
        match self {
            Json::Number(t) => number_of_digits(t.as_str()),
            _ => None,
        }
    }
}

/// The member `key` of a value that may be missing.
pub fn get_opt<'a>(j: Option<&'a Json>, key: &str) -> (r: Option<&'a Json>)
    ensures
        json_opt(r) == member_opt(json_opt(j), key@),
{
    match j {
        Some(v) => v.get(key),
        None => None,
    }
}

/// What the value behind an optional reference holds.
pub open spec fn json_opt(j: Option<&Json>) -> Option<JsonView> {
    match j {
        Some(v) => Some(v@),
        None => None,
    }
}

/// The time in nanoseconds that a decimal text of microseconds gives.
pub open spec fn text_ticks(t: Seq<char>) -> Option<i64> {
    let b = encode_utf8(t);
    let n = b.len() as int;
    if number_end(b, 0) != n {
        None
    } else {
        match decimal(b, 0, n) {
            Some(d) => Some(ticks_of(d) as i64),
            None => None,
        }
    }
}

/// A number read as microseconds, in nanoseconds.
pub open spec fn ticks_opt(j: Option<JsonView>) -> Option<i64> {
    match j {
        Some(JsonView::Number(t)) => text_ticks(t),
        _ => None,
    }
}

/// The time in nanoseconds that a decimal text of microseconds gives; in
/// general, a thousand times the number.
pub fn ticks_in_text(t: &str) -> (r: Option<i64>)
    ensures
        r == text_ticks(t@),
{
    let b = t.as_bytes();
    if skip_number(b, 0) != b.len() {
        return None;
    }
    match parse_decimal(b, 0, b.len()) {
        Ok(v) => Some(v),
        Err(_) => None,
    }
}

impl Json {
    /// The value as a time: a number of microseconds, in nanoseconds.
    pub fn as_ticks(&self) -> (r: Option<i64>)
        ensures
            r == ticks_opt(Some(self@)),
    {
        match self {
            Json::Number(t) => ticks_in_text(t.as_str()),
            _ => None,
        }
    }
}

} // verus!
