//! What an event object says, member by member: each field is that of the last
//! member which bears its name, and members of any other name say nothing.

use vstd::prelude::*;
use vstd::utf8::{decode_utf8, encode_utf8, encode_utf8_decode_utf8};
use crate::bytes::{BACKSLASH, COLON, COMMA, QUOTE, RBRACE};
use crate::trace::event::EventView;
use crate::trace::number::{
    decimal,
    digits_end,
    digits_value,
    exponent,
    is_digit,
    is_number_byte,
    number_at,
    number_end,
    pow10,
    scaled,
    ticks_of,
    u64_at,
    Decimal,
};
use crate::trace::scan::{is_open, lemma_walk_step, lex_start, lex_walk, Lex};
use crate::trace::token::{
    at_rest,
    ends_scalar,
    event_at,
    is_ws,
    key_at,
    members_from,
    no_members,
    plain_end,
    rest_end,
    scalar_end,
    value_end,
    with_member,
    ws_end,
};

verus! {

/// The key of a member and the text of its value.
pub type Pair = (Seq<u8>, Seq<u8>);

/// The members of the object whose first one is sought from `i` on, and the
/// position after its brace: keys in quotes, each followed by a colon and a
/// value.
pub open spec fn members_of(bytes: Seq<u8>, i: int) -> Option<(Seq<Pair>, int)>
    decreases bytes.len() - i,
{
    let k = ws_end(bytes, i);
    if i < 0 || k < i || k >= bytes.len() {
        None
    } else if bytes[k] == RBRACE {
        Some((Seq::empty(), k + 1))
    } else if bytes[k] == COMMA {
        members_of(bytes, k + 1)
    } else {
        match key_at(bytes, k) {
            Some((key, after)) => {
                let c = ws_end(bytes, after);
                let v = ws_end(bytes, c + 1);
                match value_end(bytes, v) {
                    Some(e) => {
                        let j = ws_end(bytes, e);
                        let m = (key, bytes.subrange(v, e));
                        if c >= bytes.len() || bytes[c] != COLON || j >= bytes.len() || j < k {
                            None
                        } else if bytes[j] == COMMA {
                            match members_of(bytes, j + 1) {
                                Some((rest, end)) => Some((seq![m] + rest, end)),
                                None => None,
                            }
                        } else if bytes[j] == RBRACE {
                            Some((seq![m], j + 1))
                        } else {
                            None
                        }
                    },
                    None => None,
                }
            },
            None => None,
        }
    }
}

/// The value of the last member with the key.
pub open spec fn last_text(kv: Seq<Pair>, key: Seq<char>) -> Option<Seq<u8>>
    decreases kv.len(),
{
    if kv.len() == 0 {
        None
    } else if kv.last().0 == encode_utf8(key) {
        Some(kv.last().1)
    } else {
        last_text(kv.drop_last(), key)
    }
}

/// The text is made of digits that write a number of at most 64 bits.
pub open spec fn writes_id(t: Seq<u8>) -> bool {
    &&& t.len() > 0
    &&& forall|i: int| 0 <= i < t.len() ==> 48 <= #[trigger] t[i] <= 57
    &&& digits_value(t) <= u64::MAX
}

/// The value of the last member `id` that is such a number.
pub open spec fn last_id(kv: Seq<Pair>) -> Option<Seq<u8>>
    decreases kv.len(),
{
    if kv.len() == 0 {
        None
    } else if kv.last().0 == encode_utf8("id"@) && writes_id(kv.last().1) {
        Some(kv.last().1)
    } else {
        last_id(kv.drop_last())
    }
}

/// What stands between the quotes.
pub open spec fn unquoted(t: Seq<u8>) -> Seq<u8> {
    t.subrange(1, t.len() - 1)
}

/// The text is the word `null`, or at least starts like it.
pub open spec fn nulled(t: Seq<u8>) -> bool {
    t.len() > 0 && t[0] == 110
}

/// A thread or process: its digits, wrapped where a minus precedes them.
pub open spec fn id_value(t: Seq<u8>) -> int {
    if t.len() > 0 && t[0] == 45 {
        (0x1_0000_0000_0000_0000 - digits_value(t.subrange(1, t.len() as int)))
            % 0x1_0000_0000_0000_0000
    } else {
        digits_value(t) as int
    }
}

/// The time in nanoseconds that a number of microseconds gives.
pub open spec fn time_value(t: Seq<u8>) -> int {
    match number_at(t, 0) {
        Some((d, _)) => ticks_of(d),
        None => 0,
    }
}

/// Each field of `ev` is what the last member with its name says, and as in
/// `start` where there is none.
pub open spec fn says(kv: Seq<Pair>, start: EventView, ev: EventView) -> bool {
    &&& ev.name == match last_text(kv, "name"@) {
        Some(t) => decode_utf8(unquoted(t)),
        None => start.name,
    }
    &&& ev.ph == match last_text(kv, "ph"@) {
        Some(t) => if t.len() > 2 {
            t[1]
        } else {
            0
        },
        None => start.ph,
    }
    &&& ev.id == match last_id(kv) {
        Some(t) => digits_value(t) as int,
        None => start.id as int,
    }
    &&& ev.has_id == (last_id(kv) is Some || start.has_id)
    &&& ev.ts == match last_text(kv, "ts"@) {
        Some(t) => time_value(t),
        None => start.ts as int,
    }
    &&& match last_text(kv, "dur"@) {
        Some(t) => if nulled(t) {
            ev.dur is None
        } else {
            ev.dur matches Some(d) && d == time_value(t)
        },
        None => ev.dur == start.dur,
    }
    &&& ev.tid == match last_text(kv, "tid"@) {
        Some(t) => id_value(t),
        None => start.tid as int,
    }
    &&& ev.pid == match last_text(kv, "pid"@) {
        Some(t) => id_value(t),
        None => start.pid as int,
    }
    &&& match last_text(kv, "cat"@) {
        Some(t) => if nulled(t) {
            ev.cat is None
        } else {
            ev.cat == Some(decode_utf8(unquoted(t)))
        },
        None => ev.cat == start.cat,
    }
    &&& match last_text(kv, "args"@) {
        Some(t) => if nulled(t) {
            ev.args is None
        } else {
            ev.args == Some(decode_utf8(t))
        },
        None => ev.args == start.args,
    }
}

/// No form feed stands in the text: JSON has none outside strings, and none
/// unescaped in them.
pub open spec fn no_form_feed(bytes: Seq<u8>) -> bool {
    forall|i: int| 0 <= i < bytes.len() ==> #[trigger] bytes[i] != 12
}

proof fn lemma_ws_range(bytes: Seq<u8>, p: int)
    requires
        0 <= p <= bytes.len(),
    ensures
        p <= ws_end(bytes, p) <= bytes.len(),
        ws_end(bytes, p) > p ==> is_ws(bytes[p]),
    decreases bytes.len() - p,
{
    if p < bytes.len() && is_ws(bytes[p]) {
        lemma_ws_range(bytes, p + 1);
    }
}

proof fn lemma_plain(bytes: Seq<u8>, i: int)
    requires
        0 <= i,
        plain_end(bytes, i) is Some,
    ensures
        i <= plain_end(bytes, i)->0 < bytes.len(),
        bytes[plain_end(bytes, i)->0] == QUOTE,
        forall|j: int|
            i <= j < plain_end(bytes, i)->0 ==> #[trigger] bytes[j] != QUOTE && bytes[j] != BACKSLASH,
    decreases bytes.len() - i,
{
    if bytes[i] != QUOTE {
        lemma_plain(bytes, i + 1);
    }
}

proof fn lemma_rests(bytes: Seq<u8>, p: int, i: int, k: int)
    requires
        i <= k <= bytes.len(),
        forall|j: int| i <= j < k ==> !#[trigger] at_rest(bytes, p, j),
        at_rest(bytes, p, k),
    ensures
        rest_end(bytes, p, i) == Some(k),
    decreases k - i,
{
    if i < k {
        lemma_rests(bytes, p, i + 1, k);
    }
}

proof fn lemma_walks_string(bytes: Seq<u8>, p: int, i: int)
    requires
        0 <= p < i <= bytes.len(),
        bytes[p] == QUOTE,
        forall|j: int| p < j < i ==> #[trigger] bytes[j] != QUOTE && bytes[j] != BACKSLASH,
    ensures
        lex_walk(bytes.subrange(p, i), lex_start()) == (Lex { depth: 0, in_str: true, esc: false }),
    decreases i - p,
{
    if i == p + 1 {
        assert(bytes.subrange(p, p) =~= Seq::<u8>::empty());
        lemma_walk_step(bytes, p, p, lex_start());
    } else {
        lemma_walks_string(bytes, p, i - 1);
        lemma_walk_step(bytes, p, i - 1, lex_start());
    }
}

/// A string without escapes ends where its quote closes it.
proof fn lemma_string_end(bytes: Seq<u8>, p: int)
    requires
        0 <= p,
        key_at(bytes, p) is Some,
    ensures
        ({
            let (s, e) = key_at(bytes, p)->0;
            &&& value_end(bytes, p) == Some(e)
            &&& p + 2 <= e <= bytes.len()
            &&& s == bytes.subrange(p + 1, e - 1)
        }),
{
    lemma_plain(bytes, p + 1);
    let q = plain_end(bytes, p + 1)->0;
    assert forall|j: int| p + 1 <= j < q + 1 implies !#[trigger] at_rest(bytes, p, j) by {
        lemma_walks_string(bytes, p, j);
    }
    lemma_walks_string(bytes, p, q);
    lemma_walk_step(bytes, p, q, lex_start());
    assert(at_rest(bytes, p, q + 1));
    lemma_rests(bytes, p, p + 1, q + 1);
}

proof fn lemma_scalar_runs(bytes: Seq<u8>, v: int, e: int)
    requires
        0 <= v <= e <= bytes.len(),
        forall|j: int| v <= j < e ==> !ends_scalar(#[trigger] bytes[j]),
        e < bytes.len() ==> ends_scalar(bytes[e]),
    ensures
        scalar_end(bytes, v) == e,
    decreases e - v,
{
    if v < e {
        lemma_scalar_runs(bytes, v + 1, e);
    }
}

/// A number or word ends before the separator behind it.
proof fn lemma_scalar_value(bytes: Seq<u8>, v: int, e: int)
    requires
        no_form_feed(bytes),
        0 <= v < e <= bytes.len(),
        forall|j: int| v <= j < e ==> is_number_byte(#[trigger] bytes[j]),
        ws_end(bytes, e) < bytes.len(),
        bytes[ws_end(bytes, e)] == COMMA || bytes[ws_end(bytes, e)] == RBRACE,
    ensures
        value_end(bytes, v) == Some(e),
        e < bytes.len(),
        !is_number_byte(bytes[e]),
{
    lemma_ws_range(bytes, e);
    assert forall|j: int| v <= j < e implies !ends_scalar(#[trigger] bytes[j]) by {
        assert(is_number_byte(bytes[j]));
    }
    assert(e < bytes.len() && ends_scalar(bytes[e])) by {
        if ws_end(bytes, e) > e {
            assert(bytes[e] != 12);
        }
    }
    lemma_scalar_runs(bytes, v, e);
    assert(is_number_byte(bytes[v]));
}

proof fn lemma_digits(bytes: Seq<u8>, p: int)
    requires
        0 <= p <= bytes.len(),
    ensures
        p <= digits_end(bytes, p) <= bytes.len(),
        forall|i: int| p <= i < digits_end(bytes, p) ==> is_digit(#[trigger] bytes[i]),
        digits_end(bytes, p) < bytes.len() ==> !is_digit(bytes[digits_end(bytes, p)]),
    decreases bytes.len() - p,
{
    if p < bytes.len() && is_digit(bytes[p]) {
        lemma_digits(bytes, p + 1);
    }
}

proof fn lemma_numbers(bytes: Seq<u8>, p: int)
    requires
        0 <= p <= bytes.len(),
    ensures
        p <= number_end(bytes, p) <= bytes.len(),
        forall|i: int| p <= i < number_end(bytes, p) ==> is_number_byte(#[trigger] bytes[i]),
    decreases bytes.len() - p,
{
    if p < bytes.len() && is_number_byte(bytes[p]) {
        lemma_numbers(bytes, p + 1);
    }
}

/// Within a text, digits end where they do in what surrounds it.
proof fn lemma_digits_within(bytes: Seq<u8>, p: int, e: int, x: int)
    requires
        0 <= p <= x <= e <= bytes.len(),
        e < bytes.len() ==> !is_digit(bytes[e]),
    ensures
        digits_end(bytes.subrange(p, e), x - p) == digits_end(bytes, x) - p,
        digits_end(bytes, x) <= e,
    decreases e - x,
{
    let t = bytes.subrange(p, e);
    if x < e {
        assert(t[x - p] == bytes[x]);
        if is_digit(bytes[x]) {
            lemma_digits_within(bytes, p, e, x + 1);
        }
    }
}

proof fn lemma_numbers_within(bytes: Seq<u8>, p: int, e: int, x: int)
    requires
        0 <= p <= x <= e <= bytes.len(),
        e < bytes.len() ==> !is_number_byte(bytes[e]),
    ensures
        number_end(bytes.subrange(p, e), x - p) == number_end(bytes, x) - p,
        number_end(bytes, x) <= e,
    decreases e - x,
{
    let t = bytes.subrange(p, e);
    if x < e {
        assert(t[x - p] == bytes[x]);
        if is_number_byte(bytes[x]) {
            lemma_numbers_within(bytes, p, e, x + 1);
        }
    }
}

proof fn lemma_exponent_within(bytes: Seq<u8>, p: int, e: int, f: int)
    requires
        0 <= p <= f <= e <= bytes.len(),
        e < bytes.len() ==> !is_number_byte(bytes[e]),
    ensures
        exponent(bytes.subrange(p, e), f - p, e - p) == exponent(bytes, f, e),
{
    let t = bytes.subrange(p, e);
    if f < e {
        assert(t[f - p] == bytes[f]);
        if f + 1 < e {
            assert(t[f + 1 - p] == bytes[f + 1]);
        }
        let x = if f + 1 < e && (bytes[f + 1] == 45 || bytes[f + 1] == 43) {
            f + 2
        } else {
            f + 1
        };
        if x < e {
            lemma_digits_within(bytes, p, e, x);
            assert(t.subrange(x - p, e - p) =~= bytes.subrange(x, e));
        }
    }
}

proof fn lemma_decimal_within(bytes: Seq<u8>, p: int, e: int)
    requires
        0 <= p <= e <= bytes.len(),
        e < bytes.len() ==> !is_number_byte(bytes[e]),
    ensures
        decimal(bytes.subrange(p, e), 0, e - p) == decimal(bytes, p, e),
{
    let t = bytes.subrange(p, e);
    if p < e {
        assert(t[0] == bytes[p]);
    }
    let s = if p < e && (bytes[p] == 45 || bytes[p] == 43) {
        p + 1
    } else {
        p
    };
    lemma_digits_within(bytes, p, e, s);
    lemma_digits(bytes, s);
    let i = digits_end(bytes, s);
    assert(t.subrange(s - p, i - p) =~= bytes.subrange(s, i));
    if i < e {
        assert(t[i - p] == bytes[i]);
    }
    if i < e && bytes[i] == 46 {
        lemma_digits_within(bytes, p, e, i + 1);
        lemma_digits(bytes, i + 1);
        let f = digits_end(bytes, i + 1);
        assert(t.subrange(i + 1 - p, f - p) =~= bytes.subrange(i + 1, f));
        lemma_exponent_within(bytes, p, e, f);
    } else {
        lemma_exponent_within(bytes, p, e, i);
    }
}

/// A number is read from its own text alone.
proof fn lemma_number_within(bytes: Seq<u8>, p: int)
    requires
        0 <= p < bytes.len(),
        number_at(bytes, p) is Some,
        ({
            let (_, e) = number_at(bytes, p)->0;
            e < bytes.len() && !is_number_byte(bytes[e])
        }),
    ensures
        ({
            let (d, e) = number_at(bytes, p)->0;
            &&& p < e
            &&& number_at(bytes.subrange(p, e), 0) == Some((d, e - p))
            &&& forall|j: int| p <= j < e ==> is_number_byte(#[trigger] bytes[j])
        }),
{
    let (d, e) = number_at(bytes, p)->0;
    let neg = bytes[p] == 45;
    let s = if neg {
        p + 1
    } else {
        p
    };
    lemma_digits(bytes, s);
    lemma_numbers(bytes, p);
    let i = digits_end(bytes, s);
    let digits = bytes.subrange(s, i);
    let plain = s < i && !(i < bytes.len() && (bytes[i] == 46 || bytes[i] == 101 || bytes[i] == 69))
        && digits_value(digits) <= u64::MAX;
    if !plain {
        if number_end(bytes, p) == p {
            assert(decimal(bytes, p, p) is None) by {
                assert(!is_digit(bytes[p]));
                assert(bytes.subrange(p, p) =~= Seq::<u8>::empty());
            }
        }
    }
    assert(p < e);
    let t = bytes.subrange(p, e);
    assert(t[0] == bytes[p]);
    if s <= e {
        lemma_digits_within(bytes, p, e, s);
        assert(t.subrange(s - p, i - p) =~= digits);
        if i < e {
            assert(t[i - p] == bytes[i]);
        }
    }
    if !plain {
        lemma_numbers_within(bytes, p, e, p);
        lemma_decimal_within(bytes, p, e);
    }
}

/// The names of the members that are read are different.
proof fn lemma_keys_differ()
    ensures
        encode_utf8("name"@) != encode_utf8("ph"@),
        encode_utf8("name"@) != encode_utf8("id"@),
        encode_utf8("name"@) != encode_utf8("ts"@),
        encode_utf8("name"@) != encode_utf8("dur"@),
        encode_utf8("name"@) != encode_utf8("tid"@),
        encode_utf8("name"@) != encode_utf8("pid"@),
        encode_utf8("name"@) != encode_utf8("cat"@),
        encode_utf8("name"@) != encode_utf8("args"@),
        encode_utf8("ph"@) != encode_utf8("id"@),
        encode_utf8("ph"@) != encode_utf8("ts"@),
        encode_utf8("ph"@) != encode_utf8("dur"@),
        encode_utf8("ph"@) != encode_utf8("tid"@),
        encode_utf8("ph"@) != encode_utf8("pid"@),
        encode_utf8("ph"@) != encode_utf8("cat"@),
        encode_utf8("ph"@) != encode_utf8("args"@),
        encode_utf8("id"@) != encode_utf8("ts"@),
        encode_utf8("id"@) != encode_utf8("dur"@),
        encode_utf8("id"@) != encode_utf8("tid"@),
        encode_utf8("id"@) != encode_utf8("pid"@),
        encode_utf8("id"@) != encode_utf8("cat"@),
        encode_utf8("id"@) != encode_utf8("args"@),
        encode_utf8("ts"@) != encode_utf8("dur"@),
        encode_utf8("ts"@) != encode_utf8("tid"@),
        encode_utf8("ts"@) != encode_utf8("pid"@),
        encode_utf8("ts"@) != encode_utf8("cat"@),
        encode_utf8("ts"@) != encode_utf8("args"@),
        encode_utf8("dur"@) != encode_utf8("tid"@),
        encode_utf8("dur"@) != encode_utf8("pid"@),
        encode_utf8("dur"@) != encode_utf8("cat"@),
        encode_utf8("dur"@) != encode_utf8("args"@),
        encode_utf8("tid"@) != encode_utf8("pid"@),
        encode_utf8("tid"@) != encode_utf8("cat"@),
        encode_utf8("tid"@) != encode_utf8("args"@),
        encode_utf8("pid"@) != encode_utf8("cat"@),
        encode_utf8("pid"@) != encode_utf8("args"@),
        encode_utf8("cat"@) != encode_utf8("args"@),
{
    reveal_strlit("name");
    encode_utf8_decode_utf8("name"@);
    assert("name"@.len() == 4);
    reveal_strlit("ph");
    encode_utf8_decode_utf8("ph"@);
    assert("ph"@.len() == 2);
    reveal_strlit("id");
    encode_utf8_decode_utf8("id"@);
    assert("id"@.len() == 2);
    reveal_strlit("ts");
    encode_utf8_decode_utf8("ts"@);
    assert("ts"@.len() == 2);
    reveal_strlit("dur");
    encode_utf8_decode_utf8("dur"@);
    assert("dur"@.len() == 3);
    reveal_strlit("tid");
    encode_utf8_decode_utf8("tid"@);
    assert("tid"@.len() == 3);
    reveal_strlit("pid");
    encode_utf8_decode_utf8("pid"@);
    assert("pid"@.len() == 3);
    reveal_strlit("cat");
    encode_utf8_decode_utf8("cat"@);
    assert("cat"@.len() == 3);
    reveal_strlit("args");
    encode_utf8_decode_utf8("args"@);
    assert("args"@.len() == 4);
    assert("name"@[0] == 'n' && "name"@[1] == 'a');
    assert("ph"@[0] == 'p' && "ph"@[1] == 'h');
    assert("id"@[0] == 'i' && "id"@[1] == 'd');
    assert("ts"@[0] == 't' && "ts"@[1] == 's');
    assert("dur"@[0] == 'd' && "dur"@[1] == 'u');
    assert("tid"@[0] == 't' && "tid"@[1] == 'i');
    assert("pid"@[0] == 'p' && "pid"@[1] == 'i');
    assert("cat"@[0] == 'c' && "cat"@[1] == 'a');
    assert("args"@[0] == 'a' && "args"@[1] == 'r');
}

proof fn lemma_rest_range(bytes: Seq<u8>, p: int, i: int)
    requires
        rest_end(bytes, p, i) is Some,
    ensures
        i <= rest_end(bytes, p, i)->0 <= bytes.len(),
    decreases bytes.len() + 1 - i,
{
    if !at_rest(bytes, p, i) {
        lemma_rest_range(bytes, p, i + 1);
    }
}

proof fn lemma_scalar_range(bytes: Seq<u8>, i: int)
    requires
        0 <= i <= bytes.len(),
    ensures
        i <= scalar_end(bytes, i) <= bytes.len(),
    decreases bytes.len() - i,
{
    if i < bytes.len() && !ends_scalar(bytes[i]) {
        lemma_scalar_range(bytes, i + 1);
    }
}

proof fn lemma_value_range(bytes: Seq<u8>, v: int)
    requires
        0 <= v,
        value_end(bytes, v) is Some,
    ensures
        v < value_end(bytes, v)->0 <= bytes.len(),
{
    if bytes[v] == QUOTE || is_open(bytes[v]) {
        lemma_rest_range(bytes, v, v + 1);
    } else {
        lemma_scalar_range(bytes, v);
    }
}

/// What stands behind a value is no part of a number.
proof fn lemma_behind(bytes: Seq<u8>, e: int)
    requires
        no_form_feed(bytes),
        0 <= e <= bytes.len(),
        ws_end(bytes, e) < bytes.len(),
        bytes[ws_end(bytes, e)] == COMMA || bytes[ws_end(bytes, e)] == RBRACE,
    ensures
        e < bytes.len(),
        !is_number_byte(bytes[e]),
{
    lemma_ws_range(bytes, e);
}

proof fn lemma_single(m: Pair, key: Seq<char>)
    ensures
        last_text(seq![m], key) == if m.0 == encode_utf8(key) {
            Some(m.1)
        } else {
            None
        },
        last_id(seq![m]) == if m.0 == encode_utf8("id"@) && writes_id(m.1) {
            Some(m.1)
        } else {
            None
        },
{
    let kv = seq![m];
    assert(kv.drop_last() =~= Seq::<Pair>::empty());
    assert(kv.last() == m);
    assert(last_text(kv.drop_last(), key) is None);
    assert(last_id(kv.drop_last()) is None);
}

proof fn lemma_singles(m: Pair)
    ensures
        last_text(seq![m], "name"@) == if m.0 == encode_utf8("name"@) {
            Some(m.1)
        } else {
            None
        },
        last_text(seq![m], "ph"@) == if m.0 == encode_utf8("ph"@) {
            Some(m.1)
        } else {
            None
        },
        last_text(seq![m], "ts"@) == if m.0 == encode_utf8("ts"@) {
            Some(m.1)
        } else {
            None
        },
        last_text(seq![m], "dur"@) == if m.0 == encode_utf8("dur"@) {
            Some(m.1)
        } else {
            None
        },
        last_text(seq![m], "tid"@) == if m.0 == encode_utf8("tid"@) {
            Some(m.1)
        } else {
            None
        },
        last_text(seq![m], "pid"@) == if m.0 == encode_utf8("pid"@) {
            Some(m.1)
        } else {
            None
        },
        last_text(seq![m], "cat"@) == if m.0 == encode_utf8("cat"@) {
            Some(m.1)
        } else {
            None
        },
        last_text(seq![m], "args"@) == if m.0 == encode_utf8("args"@) {
            Some(m.1)
        } else {
            None
        },
        last_id(seq![m]) == if m.0 == encode_utf8("id"@) && writes_id(m.1) {
            Some(m.1)
        } else {
            None
        },
{
    lemma_single(m, "name"@);
    lemma_single(m, "ph"@);
    lemma_single(m, "ts"@);
    lemma_single(m, "dur"@);
    lemma_single(m, "tid"@);
    lemma_single(m, "pid"@);
    lemma_single(m, "cat"@);
    lemma_single(m, "args"@);
}

/// Digits at a place, up to a separator.
proof fn lemma_integer(bytes: Seq<u8>, p: int)
    requires
        0 <= p < bytes.len(),
        u64_at(bytes, p) is Some,
    ensures
        ({
            let (x, e) = u64_at(bytes, p)->0;
            &&& p < e <= bytes.len()
            &&& x == digits_value(bytes.subrange(p, e))
            &&& forall|j: int| p <= j < e ==> is_digit(#[trigger] bytes[j])
        }),
{
    lemma_digits(bytes, p);
}

/// Reading one member.
#[verifier::spinoff_prover]
#[verifier::rlimit(50)]
proof fn lemma_member(bytes: Seq<u8>, key: Seq<u8>, v: int, ev: EventView)
    requires
        no_form_feed(bytes),
        0 <= v < bytes.len(),
        with_member(bytes, key, v, ev) is Some,
        ({
            let (_, e) = with_member(bytes, key, v, ev)->0;
            &&& e <= bytes.len()
            &&& ws_end(bytes, e) < bytes.len()
            &&& bytes[ws_end(bytes, e)] == COMMA || bytes[ws_end(bytes, e)] == RBRACE
        }),
    ensures
        ({
            let (ev2, e) = with_member(bytes, key, v, ev)->0;
            &&& value_end(bytes, v) == Some(e)
            &&& v < e <= bytes.len()
            &&& says(seq![(key, bytes.subrange(v, e))], ev, ev2)
        }),
{
    let (ev2, e) = with_member(bytes, key, v, ev)->0;
    let t = bytes.subrange(v, e);
    lemma_keys_differ();
    lemma_singles((key, t));
    lemma_with_range(bytes, key, v, ev);
    if key == encode_utf8("name"@) || key == encode_utf8("ph"@) || key == encode_utf8("cat"@)
        && bytes[v] != 110 {
        lemma_string_end(bytes, v);
        let (s, _) = key_at(bytes, v)->0;
        assert(unquoted(t) =~= s);
        assert(t[0] == bytes[v]);
        if t.len() > 2 {
            assert(s[0] == t[1]);
        }
    } else if key == encode_utf8("id"@) {
        if u64_at(bytes, v) is Some {
            lemma_integer(bytes, v);
            assert forall|j: int| v <= j < e implies is_number_byte(#[trigger] bytes[j]) by {
                assert(is_digit(bytes[j]));
            }
            lemma_scalar_value(bytes, v, e);
            assert forall|i: int| 0 <= i < t.len() implies 48 <= #[trigger] t[i] <= 57 by {
                assert(is_digit(bytes[v + i]));
            }
            assert(writes_id(t));
        } else {
            lemma_value_range(bytes, v);
            lemma_behind(bytes, e);
            if writes_id(t) {
                lemma_all_digits(bytes, v, e);
            }
        }
    } else if key == encode_utf8("tid"@) || key == encode_utf8("pid"@) {
        if bytes[v] == 45 {
            if v + 1 >= bytes.len() {
                assert(digits_end(bytes, v + 1) == v + 1);
            }
            lemma_integer(bytes, v + 1);
            assert(t.subrange(1, t.len() as int) =~= bytes.subrange(v + 1, e));
        } else {
            lemma_integer(bytes, v);
        }
        assert forall|j: int| v <= j < e implies is_number_byte(#[trigger] bytes[j]) by {
            if j > v || bytes[v] != 45 {
                assert(is_digit(bytes[j]));
            }
        }
        lemma_scalar_value(bytes, v, e);
        assert(t[0] == bytes[v]);
    } else if key == encode_utf8("ts"@) || key == encode_utf8("dur"@) && bytes[v] != 110 {
        lemma_behind(bytes, e);
        lemma_number_within(bytes, v);
        lemma_scalar_value(bytes, v, e);
        assert(t[0] == bytes[v]);
    } else {
        lemma_value_range(bytes, v);
        assert(t[0] == bytes[v]);
    }
}

proof fn lemma_all_digits(bytes: Seq<u8>, v: int, e: int)
    requires
        0 <= v < e < bytes.len(),
        writes_id(bytes.subrange(v, e)),
        !is_number_byte(bytes[e]),
    ensures
        u64_at(bytes, v) is Some,
{
    let t = bytes.subrange(v, e);
    lemma_digits(bytes, v);
    let i = digits_end(bytes, v);
    assert forall|j: int| v <= j < e implies is_digit(#[trigger] bytes[j]) by {
        assert(48 <= t[j - v] <= 57);
    }
    assert(i == e);
}

/// A member before others counts where none of these has its key.
proof fn lemma_before(m: Pair, rest: Seq<Pair>, key: Seq<char>)
    ensures
        last_text(seq![m] + rest, key) == match last_text(rest, key) {
            Some(t) => Some(t),
            None => if m.0 == encode_utf8(key) {
                Some(m.1)
            } else {
                None
            },
        },
    decreases rest.len(),
{
    let all = seq![m] + rest;
    if rest.len() == 0 {
        assert(all =~= seq![m]);
        lemma_single(m, key);
    } else {
        assert(all.drop_last() =~= seq![m] + rest.drop_last());
        assert(all.last() == rest.last());
        lemma_before(m, rest.drop_last(), key);
    }
}

proof fn lemma_before_id(m: Pair, rest: Seq<Pair>)
    ensures
        last_id(seq![m] + rest) == match last_id(rest) {
            Some(t) => Some(t),
            None => if m.0 == encode_utf8("id"@) && writes_id(m.1) {
                Some(m.1)
            } else {
                None
            },
        },
    decreases rest.len(),
{
    let all = seq![m] + rest;
    if rest.len() == 0 {
        assert(all =~= seq![m]);
        lemma_single(m, "id"@);
    } else {
        assert(all.drop_last() =~= seq![m] + rest.drop_last());
        assert(all.last() == rest.last());
        lemma_before_id(m, rest.drop_last());
    }
}

/// What a member says and then what the others say is what all say.
proof fn lemma_says_join(m: Pair, rest: Seq<Pair>, a: EventView, b: EventView, c: EventView)
    requires
        says(seq![m], a, b),
        says(rest, b, c),
    ensures
        says(seq![m] + rest, a, c),
{
    lemma_singles(m);
    lemma_before_id(m, rest);
    lemma_before(m, rest, "name"@);
    lemma_before(m, rest, "ph"@);
    lemma_before(m, rest, "ts"@);
    lemma_before(m, rest, "dur"@);
    lemma_before(m, rest, "tid"@);
    lemma_before(m, rest, "pid"@);
    lemma_before(m, rest, "cat"@);
    lemma_before(m, rest, "args"@);
}

proof fn lemma_says_nothing(a: EventView)
    ensures
        says(Seq::empty(), a, a),
{
}

/// Reading all members.
proof fn lemma_members(bytes: Seq<u8>, i: int, ev: EventView)
    requires
        no_form_feed(bytes),
        0 <= i <= bytes.len(),
        members_from(bytes, i, ev) is Some,
    ensures
        members_of(bytes, i) is Some,
        ({
            let (last, e) = members_from(bytes, i, ev)->0;
            let (kv, end) = members_of(bytes, i)->0;
            e == end && says(kv, ev, last)
        }),
    decreases bytes.len() - i,
{
    let k = ws_end(bytes, i);
    lemma_ws_range(bytes, i);
    if bytes[k] == RBRACE {
        lemma_says_nothing(ev);
    } else if bytes[k] == COMMA {
        lemma_members(bytes, k + 1, ev);
    } else {
        lemma_string_end(bytes, k);
        let (key, after) = key_at(bytes, k)->0;
        let c = ws_end(bytes, after);
        lemma_ws_range(bytes, after);
        lemma_ws_range(bytes, c + 1);
        let v = ws_end(bytes, c + 1);
        let (ev2, e) = with_member(bytes, key, v, ev)->0;
        let j = ws_end(bytes, e);
        lemma_with_range(bytes, key, v, ev);
        lemma_member(bytes, key, v, ev);
        lemma_ws_range(bytes, e);
        let m = (key, bytes.subrange(v, e));
        if bytes[j] == COMMA {
            lemma_members(bytes, j + 1, ev2);
            let (rest, _) = members_of(bytes, j + 1)->0;
            let (last, _) = members_from(bytes, j + 1, ev2)->0;
            lemma_says_join(m, rest, ev, ev2, last);
        }
    }
}

/// A value that is read ends within the text.
proof fn lemma_with_range(bytes: Seq<u8>, key: Seq<u8>, v: int, ev: EventView)
    requires
        0 <= v < bytes.len(),
        with_member(bytes, key, v, ev) is Some,
    ensures
        ({
            let (_, e) = with_member(bytes, key, v, ev)->0;
            v < e <= bytes.len()
        }),
{
    if value_end(bytes, v) is Some {
        lemma_value_range(bytes, v);
    }
    if key_at(bytes, v) is Some {
        lemma_string_end(bytes, v);
    }
    if u64_at(bytes, v) is Some {
        lemma_integer(bytes, v);
    }
    if bytes[v] == 45 && u64_at(bytes, v + 1) is Some {
        if v + 1 >= bytes.len() {
            assert(digits_end(bytes, v + 1) == v + 1);
        }
        lemma_integer(bytes, v + 1);
    }
    if number_at(bytes, v) is Some {
        lemma_number_range(bytes, v);
    }
}

proof fn lemma_number_range(bytes: Seq<u8>, p: int)
    requires
        0 <= p < bytes.len(),
        number_at(bytes, p) is Some,
    ensures
        ({
            let (_, e) = number_at(bytes, p)->0;
            p < e <= bytes.len()
        }),
{
    let s = if bytes[p] == 45 {
        p + 1
    } else {
        p
    };
    lemma_digits(bytes, s);
    lemma_numbers(bytes, p);
    if is_number_byte(bytes[p]) {
        lemma_numbers(bytes, p + 1);
    }
    if number_end(bytes, p) == p {
        assert(decimal(bytes, p, p) is None) by {
            assert(!is_digit(bytes[p]));
            assert(bytes.subrange(p, p) =~= Seq::<u8>::empty());
        }
    }
}

/// An event that has said nothing yet.
pub open spec fn silent() -> EventView {
    EventView {
        name: Seq::empty(),
        id: 0,
        has_id: false,
        ph: 0,
        ts: 0,
        dur: None,
        tid: 0,
        pid: 0,
        cat: None,
        args: None,
    }
}

/// Each field of an event that is read is what the last member with its name
/// says, and the name alone decides: no other member sets it.
pub proof fn lemma_event_says(bytes: Seq<u8>, p: int, ev: EventView, e: int)
    requires
        no_form_feed(bytes),
        0 <= p,
        event_at(bytes, p) == Some((ev, e)),
    ensures
        bytes[p] == 123,
        members_of(bytes, p + 1) matches Some((kv, end)) && end == e && says(kv, silent(), ev),
{
    lemma_members(bytes, p + 1, no_members());
}

/// The key is one of those that are read.
pub open spec fn read_key(key: Seq<u8>) -> bool {
    ||| key == encode_utf8("name"@)
    ||| key == encode_utf8("ph"@)
    ||| key == encode_utf8("id"@)
    ||| key == encode_utf8("ts"@)
    ||| key == encode_utf8("dur"@)
    ||| key == encode_utf8("tid"@)
    ||| key == encode_utf8("pid"@)
    ||| key == encode_utf8("cat"@)
    ||| key == encode_utf8("args"@)
}

/// The members whose keys are read.
pub open spec fn known(kv: Seq<Pair>) -> Seq<Pair>
    decreases kv.len(),
{
    if kv.len() == 0 {
        Seq::empty()
    } else if read_key(kv.last().0) {
        known(kv.drop_last()).push(kv.last())
    } else {
        known(kv.drop_last())
    }
}

proof fn lemma_known(kv: Seq<Pair>, key: Seq<char>)
    requires
        read_key(encode_utf8(key)),
    ensures
        last_text(known(kv), key) == last_text(kv, key),
    decreases kv.len(),
{
    if kv.len() > 0 {
        let rest = kv.drop_last();
        lemma_known(rest, key);
        if read_key(kv.last().0) {
            assert(known(rest).push(kv.last()).drop_last() =~= known(rest));
        }
    }
}

proof fn lemma_known_id(kv: Seq<Pair>)
    ensures
        last_id(known(kv)) == last_id(kv),
    decreases kv.len(),
{
    if kv.len() > 0 {
        let rest = kv.drop_last();
        lemma_known_id(rest);
        if read_key(kv.last().0) {
            assert(known(rest).push(kv.last()).drop_last() =~= known(rest));
        }
    }
}

/// Two objects that differ only in members whose keys are not read, wherever
/// these stand and whatever they hold, are the same event.
pub proof fn lemma_other_members_unread(
    x: Seq<u8>,
    p: int,
    y: Seq<u8>,
    q: int,
    a: EventView,
    b: EventView,
    i: int,
    j: int,
)
    requires
        no_form_feed(x),
        no_form_feed(y),
        0 <= p,
        0 <= q,
        event_at(x, p) == Some((a, i)),
        event_at(y, q) == Some((b, j)),
        members_of(x, p + 1) matches Some((kx, _)) && members_of(y, q + 1) matches Some((ky, _))
            && known(kx) == known(ky),
    ensures
        a == b,
{
    lemma_event_says(x, p, a, i);
    lemma_event_says(y, q, b, j);
    let (kx, _) = members_of(x, p + 1)->0;
    let (ky, _) = members_of(y, q + 1)->0;
    lemma_known_id(kx);
    lemma_known_id(ky);
    lemma_known(kx, "name"@);
    lemma_known(ky, "name"@);
    lemma_known(kx, "ph"@);
    lemma_known(ky, "ph"@);
    lemma_known(kx, "ts"@);
    lemma_known(ky, "ts"@);
    lemma_known(kx, "dur"@);
    lemma_known(ky, "dur"@);
    lemma_known(kx, "tid"@);
    lemma_known(ky, "tid"@);
    lemma_known(kx, "pid"@);
    lemma_known(ky, "pid"@);
    lemma_known(kx, "cat"@);
    lemma_known(ky, "cat"@);
    lemma_known(kx, "args"@);
    lemma_known(ky, "args"@);
    assert(a.name == b.name && a.ph == b.ph && a.id == b.id && a.has_id == b.has_id && a.ts == b.ts);
    assert(a.dur == b.dur && a.tid == b.tid && a.pid == b.pid);
    assert(a.cat == b.cat && a.args == b.args);
}

/// The text is made of digits.
pub open spec fn digits_only(d: Seq<u8>) -> bool {
    forall|i: int| 0 <= i < d.len() ==> 48 <= #[trigger] d[i] <= 57
}

/// What a digit at each place is worth: ten times the one behind it.
pub proof fn lemma_digit_places(a: Seq<u8>, b: Seq<u8>)
    ensures
        digits_value(Seq::empty()) == 0,
        forall|c: u8| 48 <= c <= 57 ==> #[trigger] digits_value(a.push(c)) == 10 * digits_value(a) + (c
            - 48),
        b.len() == 0 ==> digits_value(a + b) == digits_value(a),
        b.len() == 1 ==> digits_value(a + b) == 10 * digits_value(a) + digits_value(b),
        b.len() == 2 ==> digits_value(a + b) == 100 * digits_value(a) + digits_value(b),
        b.len() == 3 ==> digits_value(a + b) == 1000 * digits_value(a) + digits_value(b),
{
    assert forall|c: u8| 48 <= c <= 57 implies #[trigger] digits_value(a.push(c)) == 10 * digits_value(
        a,
    ) + (c - 48) by {
        assert(a.push(c).drop_last() =~= a);
    }
    lemma_digits_join(a, b);
    if b.len() > 0 {
        lemma_digits_join(a, b.drop_last());
        if b.len() > 1 {
            lemma_digits_join(a, b.drop_last().drop_last());
            if b.len() > 2 {
                lemma_digits_join(a, b.drop_last().drop_last().drop_last());
            }
        }
    }
}

proof fn lemma_digits_join(a: Seq<u8>, b: Seq<u8>)
    ensures
        b.len() == 0 ==> digits_value(a + b) == digits_value(a) && digits_value(b) == 0,
        b.len() > 0 ==> digits_value(a + b) == 10 * digits_value(a + b.drop_last()) + (b.last() - 48) as nat
            && digits_value(b) == 10 * digits_value(b.drop_last()) + (b.last() - 48) as nat,
{
    if b.len() == 0 {
        assert(a + b =~= a);
    } else {
        assert((a + b).drop_last() =~= a + b.drop_last());
        assert((a + b).last() == b.last());
    }
}

proof fn lemma_runs_to_end(t: Seq<u8>, p: int, e: int)
    requires
        0 <= p <= e <= t.len(),
        forall|i: int| p <= i < e ==> 48 <= #[trigger] t[i] <= 57,
        e < t.len() ==> !is_digit(t[e]),
    ensures
        digits_end(t, p) == e,
    decreases e - p,
{
    if p < e {
        lemma_runs_to_end(t, p + 1, e);
    }
}

proof fn lemma_number_to_end(t: Seq<u8>, p: int)
    requires
        0 <= p <= t.len(),
        forall|i: int| p <= i < t.len() ==> is_number_byte(#[trigger] t[i]),
    ensures
        number_end(t, p) == t.len(),
    decreases t.len() - p,
{
    if p < t.len() {
        lemma_number_to_end(t, p + 1);
    }
}

/// A whole number of microseconds is a thousand times as many nanoseconds, and
/// less than nothing where a minus precedes it.
pub proof fn lemma_whole_time(a: Seq<u8>)
    requires
        a.len() > 0,
        digits_only(a),
        digits_value(a) <= 9_223_372_036_854_775,
    ensures
        time_value(a) == 1000 * digits_value(a),
        time_value(seq![45u8] + a) == -1000 * digits_value(a),
{
    lemma_runs_to_end(a, 0, a.len() as int);
    assert(a.subrange(0, a.len() as int) =~= a);
    assert(a[0] != 45);
    lemma_pow();
    let t = seq![45u8] + a;
    assert forall|i: int| 1 <= i < t.len() implies 48 <= #[trigger] t[i] <= 57 by {
        assert(t[i] == a[i - 1]);
    }
    lemma_runs_to_end(t, 1, t.len() as int);
    assert(t.subrange(1, t.len() as int) =~= a);
    assert(t[0] == 45);
    let n = a.len() as int;
    assert(scaled(a, n + 3) == digits_value(a) * pow10(3));
    assert(number_at(a, 0) == Some((Decimal { neg: false, digits: a, whole: n, exp: 0 }, n)));
    assert(number_at(t, 0) == Some((Decimal { neg: true, digits: a, whole: n, exp: 0 }, n + 1)));
}

proof fn lemma_pow()
    ensures
        pow10(0) == 1,
        pow10(1) == 10,
        pow10(2) == 100,
        pow10(3) == 1000,
{
    reveal_with_fuel(pow10, 4);
}

/// A number of microseconds with up to three decimals gives whole nanoseconds.
pub proof fn lemma_decimal_time(a: Seq<u8>, b: Seq<u8>)
    requires
        a.len() > 0,
        digits_only(a),
        digits_only(b),
        1 <= b.len() <= 3,
        digits_value(a) <= 9_223_372_036_854_774,
    ensures
        b.len() == 1 ==> time_value(a + seq![46u8] + b) == 1000 * digits_value(a) + 100
            * digits_value(b),
        b.len() == 2 ==> time_value(a + seq![46u8] + b) == 1000 * digits_value(a) + 10
            * digits_value(b),
        b.len() == 3 ==> time_value(a + seq![46u8] + b) == 1000 * digits_value(a) + digits_value(b),
{
    let t = a + seq![46u8] + b;
    let n = t.len() as int;
    let i = a.len() as int;
    assert(t[i] == 46);
    assert forall|j: int| 0 <= j < i implies 48 <= #[trigger] t[j] <= 57 by {
        assert(t[j] == a[j]);
    }
    assert forall|j: int| i + 1 <= j < n implies 48 <= #[trigger] t[j] <= 57 by {
        assert(t[j] == b[j - i - 1]);
    }
    lemma_runs_to_end(t, 0, i);
    lemma_runs_to_end(t, i + 1, n);
    assert forall|j: int| 0 <= j < n implies is_number_byte(#[trigger] t[j]) by {}
    lemma_number_to_end(t, 0);
    assert(t[0] == a[0]);
    assert(t.subrange(0, i) =~= a);
    assert(t.subrange(i + 1, n) =~= b);
    assert(t.subrange(0, i) + t.subrange(i + 1, n) =~= a + b);
    lemma_digit_places(a, b);
    lemma_pow();
    lemma_small(b);
    let d = decimal(t, 0, n)->0;
    assert(d.digits == a + b && d.whole == i && d.exp == 0 && !d.neg);
    assert(number_at(t, 0) == Some((d, n)));
    let k = (3 - b.len()) as nat;
    assert(scaled(a + b, i + 3) == digits_value(a + b) * pow10(k)) by {
        assert((a + b).take((a + b).len() as int) =~= a + b);
        assert(i + 3 - (a + b).len() == k);
    }
    if b.len() == 1 {
        assert(digits_value(a + b) * pow10(k) == 1000 * digits_value(a) + 100 * digits_value(b));
    } else if b.len() == 2 {
        assert(digits_value(a + b) * pow10(k) == 1000 * digits_value(a) + 10 * digits_value(b));
    } else {
        assert(digits_value(a + b) * pow10(k) == 1000 * digits_value(a) + digits_value(b));
    }
}

/// Three digits write less than a thousand.
proof fn lemma_small(b: Seq<u8>)
    requires
        digits_only(b),
        b.len() <= 3,
    ensures
        b.len() == 1 ==> digits_value(b) < 10,
        b.len() == 2 ==> digits_value(b) < 100,
        b.len() == 3 ==> digits_value(b) < 1000,
{
    reveal_with_fuel(digits_value, 4);
    if b.len() > 0 {
        assert(48 <= b[b.len() - 1] <= 57);
        if b.len() > 1 {
            assert(b.drop_last().last() == b[b.len() - 2]);
            if b.len() > 2 {
                assert(b.drop_last().drop_last().last() == b[b.len() - 3]);
            }
        }
    }
}

} // verus!
