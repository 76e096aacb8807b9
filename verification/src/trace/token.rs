//! Tokenizer for trace event objects.

use vstd::prelude::*;
use vstd::slice::slice_subrange;
use vstd::string::StringSliceAdditionalSpecFns;
use vstd::utf8::{decode_utf8, encode_utf8, valid_utf8};
use crate::bytes::{BACKSLASH, COLON, COMMA, LBRACE, LBRACKET, QUOTE, RBRACE, RBRACKET};
use crate::text::same_bytes;
use crate::trace::event::{Args, EventView, TraceEvent};
use crate::trace::number::{
    i64_at,
    number_at,
    parse_num_i64,
    parse_num_ticks,
    parse_num_u64,
    ticks_of,
    u64_at,
};
use crate::trace::scan::{
    back_run,
    first_from,
    is_open,
    is_structural,
    lemma_esc_by_run,
    lemma_walk_plain,
    lemma_walk_step,
    lex_start,
    lex_walk,
    next_close,
    next_open,
    trailing_run,
    Lex,
};

verus! {

/// ASCII whitespace: space, tab, line feed, form feed, carriage return.
pub open spec fn is_ws(b: u8) -> bool {
    b == 32 || b == 9 || b == 10 || b == 12 || b == 13
}

/// The first position from `p` on that holds no whitespace.
pub open spec fn ws_end(bytes: Seq<u8>, p: int) -> int
    decreases bytes.len() - p,
{
    if 0 <= p < bytes.len() && is_ws(bytes[p]) {
        ws_end(bytes, p + 1)
    } else {
        p
    }
}

/// Skip whitespace from `p` on.
pub fn skip_ws(bytes: &[u8], p: usize) -> (r: usize)
    ensures
        r == ws_end(bytes@, p as int),
        p <= r,
        p <= bytes@.len() ==> r <= bytes@.len(),
{
    let mut i: usize = p;
    while i < bytes.len() && (bytes[i] == 32 || bytes[i] == 9 || bytes[i] == 10 || bytes[i] == 12
        || bytes[i] == 13)
        invariant
            p <= i,
            p <= bytes@.len() ==> i <= bytes@.len(),
            ws_end(bytes@, p as int) == ws_end(bytes@, i as int),
        decreases bytes@.len() - i,
    {
        i = i + 1;
    }
    i
}

/// Where an unescaped string whose content starts at `i` has its closing
/// quote; `None` when it holds an escape or does not end.
pub open spec fn plain_end(bytes: Seq<u8>, i: int) -> Option<int>
    decreases bytes.len() - i,
{
    if i < 0 || i >= bytes.len() || bytes[i] == BACKSLASH {
        None
    } else if bytes[i] == QUOTE {
        Some(i)
    } else {
        plain_end(bytes, i + 1)
    }
}

/// The bytes between the quotes of the unescaped string at `p`, and the
/// position after it.
pub open spec fn key_at(bytes: Seq<u8>, p: int) -> Option<(Seq<u8>, int)> {
    if p < bytes.len() && bytes[p] == QUOTE {
        match plain_end(bytes, p + 1) {
            Some(q) => Some((bytes.subrange(p + 1, q), q + 1)),
            None => None,
        }
    } else {
        None
    }
}

proof fn lemma_plain_end(bytes: Seq<u8>, i: int, q: int)
    requires
        0 <= i <= q <= bytes.len(),
        forall|j: int| i <= j < q ==> bytes[j] != QUOTE && bytes[j] != BACKSLASH,
    ensures
        plain_end(bytes, i) == plain_end(bytes, q),
    decreases q - i,
{
    if i < q {
        lemma_plain_end(bytes, i + 1, q);
    }
}

/// Raw byte slice of a quoted key, without the quotes. An error on escaped or
/// unterminated keys.
pub fn parse_key(bytes: &[u8], p: usize) -> (r: Result<(&[u8], usize), ()>)
    ensures
        match r {
            Ok((key, e)) => key_at(bytes@, p as int) == Some((key@, e as int)) && p + 1 < e
                <= bytes@.len() && key@ == bytes@.subrange(p + 1, e - 1),
            Err(_) => key_at(bytes@, p as int) is None,
        },
{
    if p >= bytes.len() || bytes[p] != QUOTE {
        return Err(());
    }
    let rest = slice_subrange(bytes, p + 1, bytes.len());
    assert forall|j: int| p < j < bytes@.len() implies #[trigger] bytes@[j] == rest@[j - p - 1] by {}
    match memchr::memchr2(QUOTE, BACKSLASH, rest) {
        Some(rel) => {
            let q: usize = p + 1 + rel;
            proof {
                lemma_plain_end(bytes@, p + 1, q as int);
            }
            if bytes[q] == BACKSLASH {
                return Err(());
            }
            Ok((slice_subrange(bytes, p + 1, q), q + 1))
        },
        None => {
            proof {
                lemma_plain_end(bytes@, p + 1, bytes@.len() as int);
            }
            Err(())
        },
    }
}

/// The unescaped string at `p`, when its bytes are valid UTF-8, and the
/// position after it.
pub open spec fn string_at(bytes: Seq<u8>, p: int) -> Option<(Seq<char>, int)> {
    match key_at(bytes, p) {
        Some((s, e)) => if valid_utf8(s) {
            Some((decode_utf8(s), e))
        } else {
            None
        },
        None => None,
    }
}

/// Unescaped JSON string value. Escaped strings are left to a full parser.
pub fn parse_string(bytes: &[u8], p: usize) -> (r: Result<(String, usize), ()>)
    ensures
        match r {
            Ok((s, e)) => string_at(bytes@, p as int) == Some((s@, e as int)) && p < e
                <= bytes@.len(),
            Err(_) => string_at(bytes@, p as int) is None,
        },
{
    match parse_key(bytes, p) {
        Ok((key, e)) => match core::str::from_utf8(key) {
            Ok(s) => Ok((s.to_owned(), e)),
            Err(_) => Err(()),
        },
        Err(_) => Err(()),
    }
}

/// The first byte of the unescaped string at `p`, `0` when it is empty, and
/// the position after it.
pub open spec fn phase_at(bytes: Seq<u8>, p: int) -> Option<(u8, int)> {
    match key_at(bytes, p) {
        Some((s, e)) => Some(
            (
                if s.len() > 0 {
                    s[0]
                } else {
                    0u8
                },
                e,
            ),
        ),
        None => None,
    }
}

/// Event phase: the first byte of a quoted, unescaped string.
pub fn parse_phase(bytes: &[u8], p: usize) -> (r: Result<(u8, usize), ()>)
    ensures
        match r {
            Ok((v, e)) => phase_at(bytes@, p as int) == Some((v, e as int)) && p < e <= bytes@.len(),
            Err(_) => phase_at(bytes@, p as int) is None,
        },
{
    match parse_key(bytes, p) {
        Ok((key, e)) => {
            let v: u8 = if key.len() > 0 {
                key[0]
            } else {
                0
            };
            Ok((v, e))
        },
        Err(_) => Err(()),
    }
}

/// A byte that ends a number or literal.
pub open spec fn ends_scalar(b: u8) -> bool {
    b == COMMA || b == RBRACE || b == RBRACKET || b == 32 || b == 9 || b == 10 || b == 13
}

/// The value at `p` is exactly the literal `null`.
pub open spec fn null_at(bytes: Seq<u8>, p: int) -> bool {
    &&& p + 4 <= bytes.len()
    &&& bytes[p] == 110
    &&& bytes[p + 1] == 117
    &&& bytes[p + 2] == 108
    &&& bytes[p + 3] == 108
    &&& p + 4 == bytes.len() || ends_scalar(bytes[p + 4])
}

fn is_scalar_end(b: u8) -> (r: bool)
    ensures
        r == ends_scalar(b),
{
    b == COMMA || b == RBRACE || b == RBRACKET || b == 32 || b == 9 || b == 10 || b == 13
}

/// The value starting at `p` is exactly the literal `null`, not a longer word.
pub fn is_literal_null(bytes: &[u8], p: usize) -> (r: bool)
    ensures
        r == null_at(bytes@, p as int),
{
    let n = bytes.len();
    if p > n || n - p < 4 {
        return false;
    }
    if bytes[p] != 110 || bytes[p + 1] != 117 || bytes[p + 2] != 108 || bytes[p + 3] != 108 {
        return false;
    }
    n - p == 4 || is_scalar_end(bytes[p + 4])
}

/// Walking from `p`, the nesting is back at its start, outside any string,
/// before `i`.
pub open spec fn at_rest(bytes: Seq<u8>, p: int, i: int) -> bool {
    let st = lex_walk(bytes.subrange(p, i), lex_start());
    st.depth == 0 && !st.in_str
}

/// The first position from `i` on where the walk from `p` is at rest.
pub open spec fn rest_end(bytes: Seq<u8>, p: int, i: int) -> Option<int>
    decreases bytes.len() + 1 - i,
{
    if i > bytes.len() {
        None
    } else if at_rest(bytes, p, i) {
        Some(i)
    } else {
        rest_end(bytes, p, i + 1)
    }
}

/// Where a number or literal that starts before `i` ends.
pub open spec fn scalar_end(bytes: Seq<u8>, i: int) -> int
    decreases bytes.len() - i,
{
    if 0 <= i < bytes.len() && !ends_scalar(bytes[i]) {
        scalar_end(bytes, i + 1)
    } else {
        i
    }
}

/// The position after the JSON value at `p`: a string, object or array ends
/// where its nesting is closed, anything else before a comma, a close or
/// whitespace.
pub open spec fn value_end(bytes: Seq<u8>, p: int) -> Option<int> {
    if p >= bytes.len() {
        None
    } else if bytes[p] == QUOTE || is_open(bytes[p]) {
        rest_end(bytes, p, p + 1)
    } else if scalar_end(bytes, p) == p {
        None
    } else {
        Some(scalar_end(bytes, p))
    }
}

proof fn lemma_rest_end(bytes: Seq<u8>, p: int, i: int, k: int)
    requires
        i <= k <= bytes.len() + 1,
        forall|j: int| i <= j < k ==> !#[trigger] at_rest(bytes, p, j),
    ensures
        rest_end(bytes, p, i) == rest_end(bytes, p, k),
    decreases k - i,
{
    if i < k {
        lemma_rest_end(bytes, p, i + 1, k);
    }
}

/// Inside a string, the walk is not at rest before the next quote.
proof fn lemma_string_goes_on(bytes: Seq<u8>, p: int, q: int, stop: int)
    requires
        0 <= p <= q <= stop <= bytes.len(),
        forall|j: int| q <= j < stop ==> #[trigger] bytes[j] != QUOTE,
        lex_walk(bytes.subrange(p, q), lex_start()).in_str,
    ensures
        forall|j: int| q <= j <= stop ==> !#[trigger] at_rest(bytes, p, j),
        lex_walk(bytes.subrange(p, stop), lex_start()).in_str,
        lex_walk(bytes.subrange(p, stop), lex_start()).depth == lex_walk(
            bytes.subrange(p, q),
            lex_start(),
        ).depth,
{
    assert forall|j: int| q <= j <= stop implies !#[trigger] at_rest(bytes, p, j) by {
        lemma_in_string(bytes, p, q, j, lex_start());
    }
    lemma_in_string(bytes, p, q, stop, lex_start());
}

/// A quote inside a string: one that an even run of backslashes precedes ends
/// it, any other leaves it open.
proof fn lemma_quote_step(bytes: Seq<u8>, p: int, idx: int)
    requires
        0 <= p <= idx < bytes.len(),
        bytes[idx] == QUOTE,
        lex_walk(bytes.subrange(p, idx), lex_start()).in_str,
    ensures
        ({
            let before = lex_walk(bytes.subrange(p, idx), lex_start());
            let after = lex_walk(bytes.subrange(p, idx + 1), lex_start());
            &&& after.depth == before.depth
            &&& after.in_str == (back_run(bytes.subrange(p, idx), 0) % 2 == 1)
        }),
{
    lemma_esc_by_run(bytes.subrange(p, idx), lex_start(), 0);
    lemma_walk_step(bytes, p, idx, lex_start());
}

fn skip_string(bytes: &[u8], p: usize) -> (r: Result<usize, ()>)
    requires
        p < bytes@.len(),
        bytes@[p as int] == QUOTE,
    ensures
        match r {
            Ok(e) => rest_end(bytes@, p as int, p + 1) == Some(e as int) && p < e <= bytes@.len(),
            Err(_) => rest_end(bytes@, p as int, p + 1) is None,
        },
{
    let n = bytes.len();
    let body = slice_subrange(bytes, p, n);
    let mut q: usize = p + 1;
    proof {
        lemma_walk_step(bytes@, p as int, p as int, lex_start());
        assert(bytes@.subrange(p as int, p as int) =~= Seq::<u8>::empty());
    }
    loop
        invariant
            n == bytes@.len(),
            body@ == bytes@.subrange(p as int, n as int),
            p < q <= n,
            lex_walk(bytes@.subrange(p as int, q as int), lex_start()).in_str,
            lex_walk(bytes@.subrange(p as int, q as int), lex_start()).depth == 0,
            rest_end(bytes@, p as int, p + 1) == rest_end(bytes@, p as int, q as int),
        decreases n - q,
    {
        let rest = slice_subrange(bytes, q, n);
        assert forall|j: int| q <= j < n implies #[trigger] bytes@[j] == rest@[j - q] by {}
        match memchr::memchr(QUOTE, rest) {
            None => {
                proof {
                    lemma_string_goes_on(bytes@, p as int, q as int, n as int);
                    lemma_rest_end(bytes@, p as int, q as int, n + 1);
                }
                return Err(());
            },
            Some(rel) => {
                let idx: usize = q + rel;
                let run = trailing_run(body, idx - p, 0);
                proof {
                    assert(body@.take(idx - p) =~= bytes@.subrange(p as int, idx as int));
                    lemma_string_goes_on(bytes@, p as int, q as int, idx as int);
                    lemma_rest_end(bytes@, p as int, q as int, idx + 1);
                    lemma_quote_step(bytes@, p as int, idx as int);
                }
                if run % 2 == 0 {
                    assert(at_rest(bytes@, p as int, idx + 1));
                    return Ok(idx + 1);
                }
                q = idx + 1;
            },
        }
    }
}

/// Inside a string, bytes that are no quotes leave depth and string state.
proof fn lemma_in_string(bytes: Seq<u8>, from: int, a: int, b: int, st: Lex)
    requires
        0 <= from <= a <= b <= bytes.len(),
        forall|j: int| a <= j < b ==> #[trigger] bytes[j] != QUOTE,
        lex_walk(bytes.subrange(from, a), st).in_str,
    ensures
        lex_walk(bytes.subrange(from, b), st).in_str,
        lex_walk(bytes.subrange(from, b), st).depth == lex_walk(bytes.subrange(from, a), st).depth,
    decreases b - a,
{
    if a < b {
        lemma_in_string(bytes, from, a, b - 1, st);
        lemma_walk_step(bytes, from, b - 1, st);
    }
}

/// Between structural bytes the walk stays as it is, not at rest while it is
/// inside a string or an object or array.
proof fn lemma_nest_goes_on(bytes: Seq<u8>, p: int, q: int, stop: int)
    requires
        0 <= p <= q <= stop <= bytes.len(),
        forall|j: int| q <= j < stop ==> !is_structural(#[trigger] bytes[j]),
        lex_walk(bytes.subrange(p, q), lex_start()).depth >= 1,
    ensures
        forall|j: int| q <= j <= stop ==> !#[trigger] at_rest(bytes, p, j),
        lex_walk(bytes.subrange(p, stop), lex_start()).in_str == lex_walk(
            bytes.subrange(p, q),
            lex_start(),
        ).in_str,
        lex_walk(bytes.subrange(p, stop), lex_start()).depth == lex_walk(
            bytes.subrange(p, q),
            lex_start(),
        ).depth,
{
    assert forall|j: int| q <= j <= stop implies !#[trigger] at_rest(bytes, p, j) by {
        lemma_walk_plain(bytes, p, q, j, lex_start());
    }
    lemma_walk_plain(bytes, p, q, stop, lex_start());
}

fn skip_nested(bytes: &[u8], p: usize) -> (r: Result<usize, ()>)
    requires
        p < bytes@.len(),
        is_open(bytes@[p as int]),
    ensures
        match r {
            Ok(e) => rest_end(bytes@, p as int, p + 1) == Some(e as int) && p < e <= bytes@.len(),
            Err(_) => rest_end(bytes@, p as int, p + 1) is None,
        },
{
    let n = bytes.len();
    let body = slice_subrange(bytes, p, n);
    let mut depth: usize = 1;
    let mut in_str = false;
    let mut pos: usize = p + 1;
    let mut q = next_open(bytes, pos);
    let mut c = next_close(bytes, pos);
    proof {
        lemma_walk_step(bytes@, p as int, p as int, lex_start());
        assert(bytes@.subrange(p as int, p as int) =~= Seq::<u8>::empty());
    }
    loop
        invariant
            n == bytes@.len(),
            body@ == bytes@.subrange(p as int, n as int),
            p < pos <= n,
            1 <= depth <= pos,
            lex_walk(bytes@.subrange(p as int, pos as int), lex_start()).in_str == in_str,
            lex_walk(bytes@.subrange(p as int, pos as int), lex_start()).depth == depth,
            first_from(bytes@, pos as int, q, false),
            first_from(bytes@, pos as int, c, true),
            rest_end(bytes@, p as int, p + 1) == rest_end(bytes@, p as int, pos as int),
        decreases n - pos,
    {
        let open_first = match (q, c) {
            (Some(x), Some(y)) => x < y,
            (Some(_), None) => true,
            _ => false,
        };
        let next = if open_first {
            q
        } else {
            c
        };
        match next {
            None => {
                proof {
                    lemma_nest_goes_on(bytes@, p as int, pos as int, n as int);
                    lemma_rest_end(bytes@, p as int, pos as int, n + 1);
                }
                return Err(());
            },
            Some(idx) => {
                let b = bytes[idx];
                proof {
                    lemma_nest_goes_on(bytes@, p as int, pos as int, idx as int);
                    lemma_rest_end(bytes@, p as int, pos as int, idx + 1);
                    lemma_walk_step(bytes@, p as int, idx as int, lex_start());
                }
                if in_str {
                    if b == QUOTE {
                        let run = trailing_run(body, idx - p, 0);
                        proof {
                            assert(body@.take(idx - p) =~= bytes@.subrange(p as int, idx as int));
                            lemma_quote_step(bytes@, p as int, idx as int);
                        }
                        if run % 2 == 0 {
                            in_str = false;
                        }
                    }
                } else if b == QUOTE {
                    in_str = true;
                } else if b == LBRACE || b == LBRACKET {
                    depth = depth + 1;
                } else {
                    depth = depth - 1;
                    if depth == 0 {
                        assert(at_rest(bytes@, p as int, idx + 1));
                        return Ok(idx + 1);
                    }
                }
                pos = idx + 1;
                if open_first {
                    q = next_open(bytes, pos);
                } else {
                    c = next_close(bytes, pos);
                }
            },
        }
    }
}

/// Skip one JSON value starting at `p`. Gives the position after it; an error
/// when it does not end.
pub fn skip_value(bytes: &[u8], p: usize) -> (r: Result<usize, ()>)
    ensures
        match r {
            Ok(e) => value_end(bytes@, p as int) == Some(e as int) && p < e <= bytes@.len(),
            Err(_) => value_end(bytes@, p as int) is None,
        },
{
    if p >= bytes.len() {
        return Err(());
    }
    let b = bytes[p];
    if b == QUOTE {
        return skip_string(bytes, p);
    }
    if b == LBRACE || b == LBRACKET {
        return skip_nested(bytes, p);
    }
    let mut i: usize = p;
    while i < bytes.len() && !is_scalar_end(bytes[i])
        invariant
            p <= i <= bytes@.len(),
            scalar_end(bytes@, p as int) == scalar_end(bytes@, i as int),
        decreases bytes@.len() - i,
    {
        i = i + 1;
    }
    if i == p {
        return Err(());
    }
    Ok(i)
}

/// The raw text of the value at `i`, when it is valid UTF-8, and the position
/// after it.
pub open spec fn raw_at(bytes: Seq<u8>, i: int) -> Option<(Seq<char>, int)> {
    match value_end(bytes, i) {
        Some(e) => if valid_utf8(bytes.subrange(i, e)) {
            Some((decode_utf8(bytes.subrange(i, e)), e))
        } else {
            None
        },
        None => None,
    }
}

/// The event after reading the value at `i` of the member `key`, and the
/// position after it. A string id, or one that is negative or not an integer,
/// counts as no id; members of other names are skipped.
pub open spec fn with_member(bytes: Seq<u8>, key: Seq<u8>, i: int, ev: EventView) -> Option<
    (EventView, int),
> {
    if key == encode_utf8("name"@) {
        match string_at(bytes, i) {
            Some((v, e)) => Some((EventView { name: v, ..ev }, e)),
            None => None,
        }
    } else if key == encode_utf8("ph"@) {
        match phase_at(bytes, i) {
            Some((v, e)) => Some((EventView { ph: v, ..ev }, e)),
            None => None,
        }
    } else if key == encode_utf8("id"@) {
        match u64_at(bytes, i) {
            Some((v, e)) => Some((EventView { id: v, has_id: true, ..ev }, e)),
            None => match value_end(bytes, i) {
                Some(e) => Some((ev, e)),
                None => None,
            },
        }
    } else if key == encode_utf8("ts"@) {
        match number_at(bytes, i) {
            Some((d, e)) => Some((EventView { ts: ticks_of(d) as i64, ..ev }, e)),
            None => None,
        }
    } else if key == encode_utf8("dur"@) {
        if bytes[i] == 110 {
            after_null(bytes, i, EventView { dur: None, ..ev })
        } else {
            match number_at(bytes, i) {
                Some((d, e)) => Some((EventView { dur: Some(ticks_of(d) as i64), ..ev }, e)),
                None => None,
            }
        }
    } else if key == encode_utf8("tid"@) {
        match i64_at(bytes, i) {
            Some((v, e)) => Some((EventView { tid: v, ..ev }, e)),
            None => None,
        }
    } else if key == encode_utf8("pid"@) {
        match i64_at(bytes, i) {
            Some((v, e)) => Some((EventView { pid: v, ..ev }, e)),
            None => None,
        }
    } else if key == encode_utf8("cat"@) {
        if bytes[i] == 110 {
            after_null(bytes, i, EventView { cat: None, ..ev })
        } else {
            match string_at(bytes, i) {
                Some((v, e)) => Some((EventView { cat: Some(v), ..ev }, e)),
                None => None,
            }
        }
    } else if key == encode_utf8("args"@) {
        if bytes[i] == 110 {
            after_null(bytes, i, EventView { args: None, ..ev })
        } else {
            match raw_at(bytes, i) {
                Some((v, e)) => Some((EventView { args: Some(v), ..ev }, e)),
                None => None,
            }
        }
    } else {
        match value_end(bytes, i) {
            Some(e) => Some((ev, e)),
            None => None,
        }
    }
}

/// `ev` and the position after the literal `null` at `i`.
pub open spec fn after_null(bytes: Seq<u8>, i: int, ev: EventView) -> Option<(EventView, int)> {
    if null_at(bytes, i) {
        match value_end(bytes, i) {
            Some(e) => Some((ev, e)),
            None => None,
        }
    } else {
        None
    }
}

/// An event with no member read yet.
pub open spec fn no_members() -> EventView {
    EventView {
        name: Seq::empty(),
        id: 0,
        has_id: false,
        ph: 0,
        ts: 0,
        dur: None,
        tid: 0,
        pid: 0,
        cat: None,
        args: None,
    }
}

/// The members from `i` up to the closing brace, read into `ev`, and the
/// position after the brace. Stray commas between members are passed over.
pub open spec fn members_from(bytes: Seq<u8>, i: int, ev: EventView) -> Option<(EventView, int)>
    decreases bytes.len() - i,
{
    let k = ws_end(bytes, i);
    if i < 0 || k < i || k >= bytes.len() {
        None
    } else if bytes[k] == RBRACE {
        Some((ev, k + 1))
    } else if bytes[k] == COMMA {
        members_from(bytes, k + 1, ev)
    } else {
        match key_at(bytes, k) {
            Some((key, after)) => {
                let c = ws_end(bytes, after);
                let v = ws_end(bytes, c + 1);
                if c < bytes.len() && bytes[c] == COLON && v < bytes.len() {
                    match with_member(bytes, key, v, ev) {
                        Some((ev2, e)) => {
                            let j = ws_end(bytes, e);
                            if j >= bytes.len() || j < k {
                                None
                            } else if bytes[j] == COMMA {
                                members_from(bytes, j + 1, ev2)
                            } else if bytes[j] == RBRACE {
                                Some((ev2, j + 1))
                            } else {
                                None
                            }
                        },
                        None => None,
                    }
                } else {
                    None
                }
            },
            None => None,
        }
    }
}

/// The event object at `p`, and the position after it.
pub open spec fn event_at(bytes: Seq<u8>, p: int) -> Option<(EventView, int)> {
    if p < bytes.len() && bytes[p] == LBRACE {
        members_from(bytes, p + 1, no_members())
    } else {
        None
    }
}

fn is_key(key: &[u8], word: &str) -> (r: bool)
    ensures
        r == (key@ == encode_utf8(word@)),
{
    same_bytes(key, word.as_bytes())
}

fn skip_null(bytes: &[u8], i: usize) -> (r: Result<usize, ()>)
    ensures
        match r {
            Ok(e) => null_at(bytes@, i as int) && value_end(bytes@, i as int) == Some(e as int) && i
                < e <= bytes@.len(),
            Err(_) => !null_at(bytes@, i as int) || value_end(bytes@, i as int) is None,
        },
{
    if !is_literal_null(bytes, i) {
        return Err(());
    }
    skip_value(bytes, i)
}

fn parse_raw(bytes: &[u8], i: usize) -> (r: Result<(String, usize), ()>)
    ensures
        match r {
            Ok((s, e)) => raw_at(bytes@, i as int) == Some((s@, e as int)) && i < e <= bytes@.len(),
            Err(_) => raw_at(bytes@, i as int) is None,
        },
{
    match skip_value(bytes, i) {
        Ok(e) => match core::str::from_utf8(slice_subrange(bytes, i, e)) {
            Ok(s) => Ok((s.to_owned(), e)),
            Err(_) => Err(()),
        },
        Err(_) => Err(()),
    }
}

/// Read the value at `i` of the member `key` into `ev`.
fn read_member(bytes: &[u8], key: &[u8], i: usize, ev: &mut TraceEvent) -> (r: Result<usize, ()>)
    requires
        i < bytes@.len(),
    ensures
        match r {
            Ok(e) => with_member(bytes@, key@, i as int, old(ev)@) == Some((final(ev)@, e as int))
                && i < e <= bytes@.len(),
            Err(_) => with_member(bytes@, key@, i as int, old(ev)@) is None,
        },
{
    if is_key(key, "name") {
        let (v, e) = parse_string(bytes, i)?;
        ev.name = v;
        Ok(e)
    } else if is_key(key, "ph") {
        let (v, e) = parse_phase(bytes, i)?;
        ev.ph = v;
        Ok(e)
    } else if is_key(key, "id") {
        match parse_num_u64(bytes, i) {
            Ok((v, e)) => {
                ev.id = v;
                ev.has_id = true;
                Ok(e)
            },
            Err(_) => skip_value(bytes, i),
        }
    } else if is_key(key, "ts") {
        let (v, e) = parse_num_ticks(bytes, i)?;
        ev.ts = v;
        Ok(e)
    } else if is_key(key, "dur") {
        if bytes[i] == 110 {
            let e = skip_null(bytes, i)?;
            ev.dur = None;
            Ok(e)
        } else {
            let (v, e) = parse_num_ticks(bytes, i)?;
            ev.dur = Some(v);
            Ok(e)
        }
    } else if is_key(key, "tid") {
        let (v, e) = parse_num_i64(bytes, i)?;
        ev.tid = v;
        Ok(e)
    } else if is_key(key, "pid") {
        let (v, e) = parse_num_i64(bytes, i)?;
        ev.pid = v;
        Ok(e)
    } else if is_key(key, "cat") {
        if bytes[i] == 110 {
            let e = skip_null(bytes, i)?;
            ev.cat = None;
            Ok(e)
        } else {
            let (v, e) = parse_string(bytes, i)?;
            ev.cat = Some(v);
            Ok(e)
        }
    } else if is_key(key, "args") {
        if bytes[i] == 110 {
            let e = skip_null(bytes, i)?;
            ev.args = None;
            Ok(e)
        } else {
            let (v, e) = parse_raw(bytes, i)?;
            ev.args = Some(Args::new(v));
            Ok(e)
        }
    } else {
        skip_value(bytes, i)
    }
}

/// Parse one event object starting at `p`. Gives the event and the position
/// after its closing brace; an error on escaped strings, wrong-typed members
/// and malformed shapes.
pub fn parse_event_fast(bytes: &[u8], p: usize) -> (r: Result<(TraceEvent, usize), ()>)
    ensures
        match r {
            Ok((ev, e)) => event_at(bytes@, p as int) == Some((ev@, e as int)) && p < e
                <= bytes@.len(),
            Err(_) => event_at(bytes@, p as int) is None,
        },
{
    let n = bytes.len();
    if p >= n || bytes[p] != LBRACE {
        return Err(());
    }
    let mut ev = TraceEvent {
        name: String::new(),
        id: 0,
        has_id: false,
        ph: 0,
        ts: 0,
        dur: None,
        tid: 0,
        pid: 0,
        cat: None,
        args: None,
    };
    let mut i: usize = p + 1;
    loop
        invariant
            n == bytes@.len(),
            p < i <= n,
            event_at(bytes@, p as int) == members_from(bytes@, i as int, ev@),
        decreases n - i,
    {
        i = skip_ws(bytes, i);
        if i >= n {
            return Err(());
        }
        if bytes[i] == RBRACE {
            return Ok((ev, i + 1));
        }
        if bytes[i] == COMMA {
            i = i + 1;
            continue;
        }
        let (key, after) = match parse_key(bytes, i) {
            Ok(x) => x,
            Err(_) => {
                return Err(());
            },
        };
        let c = skip_ws(bytes, after);
        if c >= n || bytes[c] != COLON {
            return Err(());
        }
        let v = skip_ws(bytes, c + 1);
        if v >= n {
            return Err(());
        }
        let e = match read_member(bytes, key, v, &mut ev) {
            Ok(e) => e,
            Err(_) => {
                return Err(());
            },
        };
        let j = skip_ws(bytes, e);
        if j >= n {
            return Err(());
        }
        if bytes[j] == COMMA {
            i = j + 1;
        } else if bytes[j] == RBRACE {
            return Ok((ev, j + 1));
        } else {
            return Err(());
        }
    }
}

/// The events of a list.
pub open spec fn event_views(v: Seq<TraceEvent>) -> Seq<EventView> {
    v.map_values(|e: TraceEvent| e@)
}

/// The event objects from `p` up to `e`, separated by commas or nothing.
/// `None` when one of them cannot be read.
pub open spec fn events_between(bytes: Seq<u8>, p: int, e: int) -> Option<Seq<EventView>>
    decreases bytes.len() - p,
{
    let k = ws_end(bytes, p);
    if p < 0 || k < p || k >= e || k >= bytes.len() {
        Some(Seq::empty())
    } else if bytes[k] == COMMA {
        events_between(bytes, k + 1, e)
    } else {
        match event_at(bytes, k) {
            Some((ev, next)) => if next <= k || next > bytes.len() {
                None
            } else {
                match events_between(bytes, next, e) {
                    Some(rest) => Some(seq![ev] + rest),
                    None => None,
                }
            },
            None => None,
        }
    }
}

/// Parse all event objects in `[s, e)`. An error when any of them uses a form
/// that the tokenizer does not read.
pub fn parse_events_fast(bytes: &[u8], s: usize, e: usize) -> (r: Result<Vec<TraceEvent>, ()>)
    requires
        s <= e <= bytes@.len(),
    ensures
        match r {
            Ok(events) => events_between(bytes@, s as int, e as int) == Some(event_views(events@)),
            Err(_) => events_between(bytes@, s as int, e as int) is None,
        },
{
    let mut events: Vec<TraceEvent> = Vec::new();
    let mut p: usize = s;
    let ghost all = events_between(bytes@, s as int, e as int);
    loop
        invariant
            p <= bytes@.len(),
            e <= bytes@.len(),
            all == (match events_between(bytes@, p as int, e as int) {
                Some(rest) => Some(event_views(events@) + rest),
                None => None,
            }),
            all == events_between(bytes@, s as int, e as int),
        decreases bytes@.len() - p,
    {
        let k = skip_ws(bytes, p);
        if k >= e {
            assert(event_views(events@) + Seq::<EventView>::empty() =~= event_views(events@));
            return Ok(events);
        }
        if bytes[k] == COMMA {
            p = k + 1;
            continue;
        }
        match parse_event_fast(bytes, k) {
            Ok((ev, next)) => {
                proof {
                    let views = event_views(events@);
                    assert(event_views(events@.push(ev)) =~= views.push(ev@));
                    assert forall|rest: Seq<EventView>| views + (seq![ev@] + rest) == #[trigger] (views.push(
                        ev@,
                    ) + rest) by {
                        assert(views + (seq![ev@] + rest) =~= views.push(ev@) + rest);
                    }
                }
                events.push(ev);
                p = next;
            },
            Err(_) => {
                return Err(());
            },
        }
    }
}

} // verus!
