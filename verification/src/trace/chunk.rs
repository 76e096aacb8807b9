//! Chunks of the `traceEvents` array: which elements a byte range owns, the
//! commas that separate them, and how the array is cut into ranges.

use vstd::prelude::*;
use vstd::slice::slice_subrange;
use crate::bytes::{COMMA, LBRACE, LBRACKET, QUOTE, RBRACE, SPACE};
use crate::trace::event::TraceEvent;
use crate::trace::scan::{
    block_count,
    block_start,
    block_state,
    blocks_of,
    exact,
    first_from,
    is_structural,
    lemma_esc_by_run,
    lemma_lex_at_exact,
    lemma_walk_plain,
    lemma_walk_step,
    lex_at,
    lex_walk,
    next_close,
    next_open,
    trailing_run,
    Blocks,
    BLOCK,
};
use crate::trace::token::{event_views, events_between, parse_events_fast, skip_ws, ws_end};

verus! {

/// The brace at `i` opens an element of the array, as walked from `block`.
pub open spec fn elem_open(bytes: Seq<u8>, blocks: Blocks, block: int, i: int) -> bool {
    let st = lex_at(bytes, blocks, block, i);
    !st.in_str && st.depth == 2 && bytes[i] == LBRACE
}

/// The brace at `i` closes a value of depth three, as walked from `block`.
pub open spec fn elem_close(bytes: Seq<u8>, blocks: Blocks, block: int, i: int) -> bool {
    let st = lex_at(bytes, blocks, block, i);
    !st.in_str && st.depth == 3 && bytes[i] == RBRACE
}

/// An element of the array: from the brace that opens it at `i` to the next
/// one that closes, at `j`.
pub open spec fn element(bytes: Seq<u8>, blocks: Blocks, block: int, i: int, j: int) -> bool {
    &&& block * BLOCK <= i < j < bytes.len()
    &&& elem_open(bytes, blocks, block, i)
    &&& elem_close(bytes, blocks, block, j)
    &&& forall|k: int|
        #![trigger elem_open(bytes, blocks, block, k)]
        #![trigger elem_close(bytes, blocks, block, k)]
        i < k < j ==> !elem_open(bytes, blocks, block, k) && !elem_close(bytes, blocks, block, k)
}

/// `ranges` holds the range from `i` up to and with `j`.
pub open spec fn has_range(ranges: Seq<(usize, usize)>, i: int, j: int) -> bool {
    exists|n: int| 0 <= n < ranges.len() && (#[trigger] ranges[n]).0 == i && ranges[n].1 == j + 1
}

/// `ranges` lists, in file order, the elements that start in `[from, to)`.
pub open spec fn owned_elements(
    bytes: Seq<u8>,
    blocks: Blocks,
    from: int,
    to: int,
    ranges: Seq<(usize, usize)>,
) -> bool {
    let block = from / BLOCK as int;
    &&& forall|n: int|
        0 <= n < ranges.len() ==> {
            &&& from <= (#[trigger] ranges[n]).0 < to
            &&& element(bytes, blocks, block, ranges[n].0 as int, ranges[n].1 - 1)
        }
    &&& forall|n: int, m: int| 0 <= n < m < ranges.len() ==> (#[trigger] ranges[n]).1 <= (
    #[trigger] ranges[m]).0
    &&& forall|i: int, j: int|
        from <= i < to && #[trigger] element(bytes, blocks, block, i, j) ==> has_range(ranges, i, j)
}

/// The commas that follow the listed ranges, those before `to` only.
pub open spec fn commas_after(bytes: Seq<u8>, ranges: Seq<(usize, usize)>, to: int) -> Seq<usize>
    decreases ranges.len(),
{
    if ranges.len() == 0 {
        Seq::empty()
    } else {
        let before = commas_after(bytes, ranges.drop_last(), to);
        let j = ws_end(bytes, ranges.last().1 as int);
        if j < bytes.len() && bytes[j] == COMMA && j < to {
            before.push(j as usize)
        } else {
            before
        }
    }
}

/// What a byte range of the array holds: the element ranges that it owns and
/// the separator commas behind them.
pub struct Chunk {
    pub ranges: Vec<(usize, usize)>,
    pub commas: Vec<usize>,
}

/// Strictly between `a` and `b` no brace opens or closes an element.
#[verifier::opaque]
spec fn unmarked(bytes: Seq<u8>, blocks: Blocks, block: int, a: int, b: int) -> bool {
    forall|k: int|
        #![trigger elem_open(bytes, blocks, block, k)]
        #![trigger elem_close(bytes, blocks, block, k)]
        a < k < b ==> !elem_open(bytes, blocks, block, k) && !elem_close(bytes, blocks, block, k)
}

/// `ranges` lists, in file order, the elements that start in `[from, to)` and
/// close before `pos`.
#[verifier::opaque]
spec fn listed(
    bytes: Seq<u8>,
    blocks: Blocks,
    from: int,
    to: int,
    pos: int,
    ranges: Seq<(usize, usize)>,
) -> bool {
    let block = from / BLOCK as int;
    &&& forall|n: int|
        0 <= n < ranges.len() ==> {
            &&& from <= (#[trigger] ranges[n]).0 < to
            &&& ranges[n].1 <= pos
            &&& element(bytes, blocks, block, ranges[n].0 as int, ranges[n].1 - 1)
        }
    &&& forall|n: int, m: int| 0 <= n < m < ranges.len() ==> (#[trigger] ranges[n]).1 <= (
    #[trigger] ranges[m]).0
    &&& forall|i: int, j: int|
        from <= i < to && j < pos && #[trigger] element(bytes, blocks, block, i, j)
            ==> has_range(ranges, i, j)
}

/// Nothing closes between `pos` and `next`: the list stays complete.
proof fn lemma_listed_advance(
    bytes: Seq<u8>,
    blocks: Blocks,
    from: int,
    to: int,
    pos: int,
    next: int,
    ranges: Seq<(usize, usize)>,
)
    requires
        listed(bytes, blocks, from, to, pos, ranges),
        pos <= next,
        forall|k: int| pos <= k < next ==> !#[trigger] elem_close(bytes, blocks, from / BLOCK as int, k),
    ensures
        listed(bytes, blocks, from, to, next, ranges),
{
    reveal(listed);
}

/// The element that closes at `idx`, opened by the last brace before it.
proof fn lemma_listed_push(
    bytes: Seq<u8>,
    blocks: Blocks,
    from: int,
    to: int,
    e: int,
    idx: int,
    ranges: Seq<(usize, usize)>,
)
    requires
        listed(bytes, blocks, from, to, idx, ranges),
        0 <= from / BLOCK as int * BLOCK <= from <= e < idx < bytes.len() <= usize::MAX,
        e < to,
        elem_open(bytes, blocks, from / BLOCK as int, e),
        elem_close(bytes, blocks, from / BLOCK as int, idx),
        unmarked(bytes, blocks, from / BLOCK as int, e, idx),
    ensures
        listed(bytes, blocks, from, to, idx + 1, ranges.push((e as usize, (idx + 1) as usize))),
{
    reveal(listed);
    reveal(unmarked);
    let block = from / BLOCK as int;
    let more = ranges.push((e as usize, (idx + 1) as usize));
    assert(element(bytes, blocks, block, e, idx));
    assert(more[ranges.len() as int] == (e as usize, (idx + 1) as usize));
    assert forall|i: int, j: int|
        from <= i < to && j < idx + 1 && #[trigger] element(bytes, blocks, block, i, j) implies has_range(
    more, i, j) by {
        if j < idx {
            let w = choose|w: int|
                0 <= w < ranges.len() && (#[trigger] ranges[w]).0 == i && ranges[w].1 == j + 1;
            assert(more[w] == ranges[w]);
        } else {
            assert(elem_open(bytes, blocks, block, i));
            assert(elem_open(bytes, blocks, block, e));
        }
    }
    assert forall|n: int, m: int| 0 <= n < m < more.len() implies (#[trigger] more[n]).1 <= (
    #[trigger] more[m]).0 by {
        assert(more[n] == ranges[n]);
        assert(elem_close(bytes, blocks, block, ranges[n].1 - 1));
        if m < ranges.len() {
            assert(more[m] == ranges[m]);
        }
    }
    assert forall|n: int| 0 <= n < more.len() implies from <= (#[trigger] more[n]).0 < to && more[n].1
        <= idx + 1 && element(bytes, blocks, block, more[n].0 as int, more[n].1 - 1) by {
        if n < ranges.len() {
            assert(more[n] == ranges[n]);
        }
    }
}

/// A close that belongs to no element of the range: its opening brace lies
/// before `from` or at or past `to`, or there is none.
proof fn lemma_listed_skip(
    bytes: Seq<u8>,
    blocks: Blocks,
    from: int,
    to: int,
    last: int,
    idx: int,
    ranges: Seq<(usize, usize)>,
)
    requires
        listed(bytes, blocks, from, to, idx, ranges),
        last < idx < bytes.len(),
        last < from || elem_open(bytes, blocks, from / BLOCK as int, last) || elem_close(
            bytes,
            blocks,
            from / BLOCK as int,
            last,
        ),
        last < from || last >= to || !elem_open(bytes, blocks, from / BLOCK as int, last),
        unmarked(bytes, blocks, from / BLOCK as int, last, idx),
    ensures
        listed(bytes, blocks, from, to, idx + 1, ranges),
{
    reveal(listed);
    reveal(unmarked);
    let block = from / BLOCK as int;
    assert forall|i: int, j: int|
        from <= i < to && j < idx + 1 && #[trigger] element(
            bytes,
            blocks,
            block,
            i,
            j,
        ) implies has_range(ranges, i, j) by {
        if j == idx {
            assert(elem_open(bytes, blocks, block, i));
        }
    }
}

/// Past a close at or behind `to`, no element of the range is left.
proof fn lemma_listed_all(
    bytes: Seq<u8>,
    blocks: Blocks,
    from: int,
    to: int,
    idx: int,
    ranges: Seq<(usize, usize)>,
)
    requires
        listed(bytes, blocks, from, to, idx + 1, ranges),
        idx >= bytes.len() || idx >= to && elem_close(bytes, blocks, from / BLOCK as int, idx),
    ensures
        owned_elements(bytes, blocks, from, to, ranges),
{
    reveal(listed);
}

proof fn lemma_unmarked_advance(bytes: Seq<u8>, blocks: Blocks, block: int, last: int, pos: int, next: int)
    requires
        unmarked(bytes, blocks, block, last, pos),
        forall|k: int|
            pos <= k < next ==> !#[trigger] elem_open(bytes, blocks, block, k) && !elem_close(
                bytes,
                blocks,
                block,
                k,
            ),
    ensures
        unmarked(bytes, blocks, block, last, next),
{
    reveal(unmarked);
}

/// Walk from the start of the block that holds `from`, collecting the elements
/// that start in `[from, to)`; the walk goes on past `to` to finish the last of
/// them. Only structural positions are visited.
pub fn scan_chunk(bytes: &[u8], blocks: &Blocks, from: usize, to: usize) -> (r: Chunk)
    requires
        bytes@.len() <= i64::MAX,
        blocks_of(bytes@, *blocks),
        from < bytes@.len(),
    ensures
        owned_elements(bytes@, *blocks, from as int, to as int, r.ranges@),
        r.commas@ == commas_after(bytes@, r.ranges@, to as int),
{
    let n = bytes.len();
    let block: usize = from / BLOCK;
    let start: usize = block * BLOCK;
    let ghost bl = block as int;
    let ghost st = block_state(*blocks, bl);
    let body = slice_subrange(bytes, start, n);
    let esc0 = blocks.esc_at[block];
    let seed: usize = if esc0 {
        1
    } else {
        0
    };
    let mut d: i64 = blocks.depth_at[block];
    let mut in_str = blocks.in_string_at[block];
    let mut ranges: Vec<(usize, usize)> = Vec::new();
    let mut commas: Vec<usize> = Vec::new();
    let mut elem_start: Option<usize> = None;
    let mut pos: usize = start;
    let mut q = next_open(bytes, pos);
    let mut c = next_close(bytes, pos);
    // Position of the last element brace before `pos`.
    let ghost mut last: int = start - 1;
    proof {
        assert(bytes@.subrange(start as int, start as int) =~= Seq::<u8>::empty());
        assert(block < block_count(bytes@.len()));
        assert(block_start(bytes@.len(), bl) == start);
        let x = blocks.depth_at@[bl];
        reveal(listed);
        reveal(unmarked);
    }
    loop
        invariant_except_break
            n == bytes@.len(),
            n <= i64::MAX,
            bl == from as int / BLOCK as int,
            start == bl * BLOCK,
            start <= from < n,
            st == block_state(*blocks, bl),
            esc0 == st.esc,
            st.esc ==> st.in_str,
            seed == if esc0 {
                1usize
            } else {
                0usize
            },
            body@ == bytes@.subrange(start as int, n as int),
            start <= pos <= n,
            -pos <= d <= pos,
            lex_at(bytes@, *blocks, bl, pos as int).depth == d,
            lex_at(bytes@, *blocks, bl, pos as int).in_str == in_str,
            first_from(bytes@, pos as int, q, false),
            first_from(bytes@, pos as int, c, true),
            start - 1 <= last < pos,
            unmarked(bytes@, *blocks, bl, last, pos as int),
            last < from || elem_open(bytes@, *blocks, bl, last) || elem_close(
                bytes@,
                *blocks,
                bl,
                last,
            ),
            match elem_start {
                Some(e) => e == last && from <= e && elem_open(bytes@, *blocks, bl, e as int),
                None => last < from || !elem_open(bytes@, *blocks, bl, last),
            },
            listed(bytes@, *blocks, from as int, to as int, pos as int, ranges@),
            commas@ == commas_after(bytes@, ranges@, to as int),
        ensures
            owned_elements(bytes@, *blocks, from as int, to as int, ranges@),
            commas@ == commas_after(bytes@, ranges@, to as int),
        decreases n - pos,
    {
        let open_first = match (q, c) {
            (Some(x), Some(y)) => x < y,
            (Some(_), None) => true,
            _ => false,
        };
        let next = if open_first {
            q
        } else {
            c
        };
        let ghost stop = match next {
            Some(i) => i as int,
            None => n as int,
        };
        proof {
            assert forall|k: int| pos <= k < stop implies !#[trigger] elem_open(bytes@, *blocks, bl, k)
                && !elem_close(bytes@, *blocks, bl, k) by {
                assert(!is_structural(bytes@[k]));
            }
            lemma_unmarked_advance(bytes@, *blocks, bl, last, pos as int, stop);
            lemma_listed_advance(bytes@, *blocks, from as int, to as int, pos as int, stop, ranges@);
        }
        let idx: usize = match next {
            None => {
                proof {
                    assert(listed(bytes@, *blocks, from as int, to as int, n as int, ranges@));
                    lemma_listed_end(bytes@, *blocks, from as int, to as int, ranges@);
                }
                break ;
            },
            Some(i) => i,
        };
        let b = bytes[idx];
        proof {
            lemma_walk_plain(bytes@, start as int, pos as int, idx as int, st);
            lemma_walk_step(bytes@, start as int, idx as int, st);
            assert(lex_at(bytes@, *blocks, bl, idx as int) == lex_walk(
                bytes@.subrange(start as int, idx as int),
                st,
            ));
            assert(lex_at(bytes@, *blocks, bl, idx + 1) == lex_walk(
                bytes@.subrange(start as int, idx + 1),
                st,
            ));
        }
        let opens = !in_str && b == LBRACE && d == 2;
        let closes = !in_str && b == RBRACE && d == 3;
        assert(opens == elem_open(bytes@, *blocks, bl, idx as int));
        assert(closes == elem_close(bytes@, *blocks, bl, idx as int));
        if in_str {
            if b == QUOTE {
                let run = trailing_run(body, idx - start, seed);
                proof {
                    assert(body@.take(idx - start) =~= bytes@.subrange(start as int, idx as int));
                    lemma_esc_by_run(bytes@.subrange(start as int, idx as int), st, seed as nat);
                }
                if run % 2 == 0 {
                    in_str = false;
                }
            }
        } else if b == QUOTE {
            in_str = true;
        } else if b == LBRACE || b == LBRACKET {
            d = d + 1;
        } else {
            d = d - 1;
        }
        if opens {
            elem_start = if idx >= from {
                Some(idx)
            } else {
                None
            };
        }
        if closes {
            match elem_start {
                Some(e) if e < to => {
                    proof {
                        lemma_listed_push(
                            bytes@,
                            *blocks,
                            from as int,
                            to as int,
                            e as int,
                            idx as int,
                            ranges@,
                        );
                    }
                    let ghost before = ranges@;
                    ranges.push((e, idx + 1));
                    assert(ranges@.drop_last() =~= before);
                    let j = skip_ws(bytes, idx + 1);
                    if j < n && bytes[j] == COMMA && j < to {
                        commas.push(j);
                    }
                },
                _ => {
                    proof {
                        lemma_listed_skip(
                            bytes@,
                            *blocks,
                            from as int,
                            to as int,
                            last,
                            idx as int,
                            ranges@,
                        );
                    }
                },
            }
            elem_start = None;
            if idx >= to {
                proof {
                    lemma_listed_all(bytes@, *blocks, from as int, to as int, idx as int, ranges@);
                }
                break ;
            }
        } else {
            proof {
                lemma_listed_advance(
                    bytes@,
                    *blocks,
                    from as int,
                    to as int,
                    idx as int,
                    idx + 1,
                    ranges@,
                );
            }
        }
        proof {
            if opens || closes {
                last = idx as int;
                reveal(unmarked);
            } else {
                lemma_unmarked_advance(bytes@, *blocks, bl, last, idx as int, idx + 1);
            }
        }
        pos = idx + 1;
        if open_first {
            q = next_open(bytes, pos);
        } else {
            c = next_close(bytes, pos);
        }
    }
    Chunk { ranges, commas }
}

proof fn lemma_listed_end(
    bytes: Seq<u8>,
    blocks: Blocks,
    from: int,
    to: int,
    ranges: Seq<(usize, usize)>,
)
    requires
        listed(bytes, blocks, from, to, bytes.len() as int, ranges),
    ensures
        owned_elements(bytes, blocks, from, to, ranges),
{
    reveal(listed);
}

/// Which elements a position starts does not depend on the block that the walk
/// starts from.
proof fn lemma_element_any_block(
    bytes: Seq<u8>,
    blocks: Blocks,
    a: int,
    b: int,
    i: int,
    j: int,
)
    requires
        exact(bytes, blocks),
        0 <= a,
        0 <= b,
        b * BLOCK <= i,
        element(bytes, blocks, a, i, j),
    ensures
        element(bytes, blocks, b, i, j),
{
    assert forall|k: int| i <= k <= j implies lex_at(bytes, blocks, a, k) == #[trigger] lex_at(
        bytes,
        blocks,
        b,
        k,
    ) by {
        lemma_lex_at_exact(bytes, blocks, a, k);
        lemma_lex_at_exact(bytes, blocks, b, k);
    }
    assert forall|k: int| i < k < j implies !#[trigger] elem_open(bytes, blocks, b, k) by {
        assert(!elem_open(bytes, blocks, a, k));
    }
    assert forall|k: int| i < k < j implies !#[trigger] elem_close(bytes, blocks, b, k) by {
        assert(!elem_close(bytes, blocks, a, k));
    }
}

/// Adjacent byte ranges own adjacent lists of elements: what `[from, mid)` and
/// `[mid, to)` own, one after the other, is what `[from, to)` owns.
pub proof fn lemma_chunks_join(
    bytes: Seq<u8>,
    blocks: Blocks,
    from: int,
    mid: int,
    to: int,
    a: Seq<(usize, usize)>,
    b: Seq<(usize, usize)>,
)
    requires
        exact(bytes, blocks),
        0 <= from <= mid <= to,
        owned_elements(bytes, blocks, from, mid, a),
        owned_elements(bytes, blocks, mid, to, b),
    ensures
        owned_elements(bytes, blocks, from, to, a + b),
{
    let c = a + b;
    let bf = from / BLOCK as int;
    let bm = mid / BLOCK as int;
    assert forall|n: int| 0 <= n < c.len() implies from <= (#[trigger] c[n]).0 < to && element(
        bytes,
        blocks,
        bf,
        c[n].0 as int,
        c[n].1 - 1,
    ) by {
        if n < a.len() {
            assert(c[n] == a[n]);
        } else {
            assert(c[n] == b[n - a.len()]);
            lemma_element_any_block(bytes, blocks, bm, bf, c[n].0 as int, c[n].1 - 1);
        }
    }
    assert forall|n: int, m: int| 0 <= n < m < c.len() implies (#[trigger] c[n]).1 <= (
    #[trigger] c[m]).0 by {
        if m < a.len() {
            assert(c[n] == a[n] && c[m] == a[m]);
        } else if n >= a.len() {
            assert(c[n] == b[n - a.len()] && c[m] == b[m - a.len()]);
        } else {
            assert(c[n] == a[n] && c[m] == b[m - a.len()]);
            // Both are elements of one walk: the first closes before the second opens.
            let i = c[n].0 as int;
            let j = c[n].1 - 1;
            assert(element(bytes, blocks, bf, i, j));
            assert(element(bytes, blocks, bf, c[m].0 as int, c[m].1 - 1));
            assert(elem_open(bytes, blocks, bf, c[m].0 as int));
        }
    }
    assert forall|i: int, j: int| from <= i < to && #[trigger] element(bytes, blocks, bf, i, j) implies has_range(
    c, i, j) by {
        if i < mid {
            let w = choose|w: int| 0 <= w < a.len() && (#[trigger] a[w]).0 == i && a[w].1 == j + 1;
            assert(c[w] == a[w]);
        } else {
            lemma_element_any_block(bytes, blocks, bf, bm, i, j);
            let w = choose|w: int| 0 <= w < b.len() && (#[trigger] b[w]).0 == i && b[w].1 == j + 1;
            assert(c[w + a.len()] == b[w]);
        }
    }
}

/// A byte range owns one list of elements.
pub proof fn lemma_owned_unique(
    bytes: Seq<u8>,
    blocks: Blocks,
    from: int,
    to: int,
    a: Seq<(usize, usize)>,
    b: Seq<(usize, usize)>,
)
    requires
        owned_elements(bytes, blocks, from, to, a),
        owned_elements(bytes, blocks, from, to, b),
    ensures
        a == b,
{
    lemma_owned_prefix(bytes, blocks, from, to, a, b, a.len() as int);
    lemma_owned_prefix(bytes, blocks, from, to, b, a, b.len() as int);
    assert(a =~= b);
}

/// The first `n` elements of one list are the first `n` of the other.
proof fn lemma_owned_prefix(
    bytes: Seq<u8>,
    blocks: Blocks,
    from: int,
    to: int,
    a: Seq<(usize, usize)>,
    b: Seq<(usize, usize)>,
    n: int,
)
    requires
        owned_elements(bytes, blocks, from, to, a),
        owned_elements(bytes, blocks, from, to, b),
        0 <= n <= a.len(),
    ensures
        n <= b.len(),
        forall|k: int| 0 <= k < n ==> a[k] == b[k],
    decreases n,
{
    if n > 0 {
        let bl = from / BLOCK as int;
        lemma_owned_prefix(bytes, blocks, from, to, a, b, n - 1);
        let x = a[n - 1];
        assert(element(bytes, blocks, bl, x.0 as int, x.1 - 1));
        let w = choose|w: int|
            0 <= w < b.len() && (#[trigger] b[w]).0 == x.0 && b[w].1 == x.1 - 1 + 1;
        assert(element(bytes, blocks, bl, b[w].0 as int, b[w].1 - 1));
        if w < n - 1 {
            assert(a[w] == b[w]);
            assert(a[w].1 <= a[n - 1].0);
        }
        let y = b[n - 1];
        assert(element(bytes, blocks, bl, y.0 as int, y.1 - 1));
        let v = choose|v: int|
            0 <= v < a.len() && (#[trigger] a[v]).0 == y.0 && a[v].1 == y.1 - 1 + 1;
        assert(element(bytes, blocks, bl, a[v].0 as int, a[v].1 - 1));
        if v < n - 1 {
            assert(a[v] == b[v]);
            assert(b[v].1 <= b[n - 1].0);
        }
        if w > n - 1 {
            assert(b[n - 1].1 <= b[w].0);
            if v > n - 1 {
                assert(a[n - 1].1 <= a[v].0);
            }
        }
    }
}

/// `[from, to)` is cut into the ranges `units`, one behind the other.
pub open spec fn cut(units: Seq<(usize, usize)>, from: int, to: int) -> bool {
    &&& units.len() > 0
    &&& units[0].0 == from
    &&& units.last().1 == to
    &&& forall|i: int| 0 <= i < units.len() ==> (#[trigger] units[i]).0 <= units[i].1
    &&& forall|i: int| 0 <= i < units.len() - 1 ==> (#[trigger] units[i]).1 == units[i + 1].0
}

/// Lists one behind the other.
pub open spec fn joined<T>(parts: Seq<Seq<T>>) -> Seq<T>
    decreases parts.len(),
{
    if parts.len() == 0 {
        Seq::empty()
    } else {
        joined(parts.drop_last()) + parts.last()
    }
}

/// However a range is cut, its parts own together what the whole owns, each
/// element once and in file order.
pub proof fn lemma_units_join(
    bytes: Seq<u8>,
    blocks: Blocks,
    units: Seq<(usize, usize)>,
    from: int,
    to: int,
    parts: Seq<Seq<(usize, usize)>>,
)
    requires
        exact(bytes, blocks),
        0 <= from,
        cut(units, from, to),
        parts.len() == units.len(),
        forall|i: int|
            0 <= i < units.len() ==> owned_elements(
                bytes,
                blocks,
                (#[trigger] units[i]).0 as int,
                units[i].1 as int,
                parts[i],
            ),
    ensures
        owned_elements(bytes, blocks, from, to, joined(parts)),
    decreases units.len(),
{
    let n = units.len() - 1;
    assert(owned_elements(bytes, blocks, units[n].0 as int, units[n].1 as int, parts[n]));
    if n == 0 {
        assert(joined(parts.drop_last()) =~= Seq::<(usize, usize)>::empty());
        assert(joined(parts) =~= parts[0]);
    } else {
        let front = units.drop_last();
        let fparts = parts.drop_last();
        assert(front.last() == units[n - 1]);
        let mid = units[n - 1].1 as int;
        assert(units[n].0 == mid);
        assert forall|i: int| 0 <= i < front.len() implies owned_elements(
            bytes,
            blocks,
            (#[trigger] front[i]).0 as int,
            front[i].1 as int,
            fparts[i],
        ) by {
            assert(front[i] == units[i]);
        }
        assert forall|i: int| 0 <= i < front.len() implies (#[trigger] front[i]).0 <= front[i].1 by {
            assert(front[i] == units[i]);
        }
        assert forall|i: int| 0 <= i < front.len() - 1 implies (#[trigger] front[i]).1 == front[i
            + 1].0 by {
            assert(front[i] == units[i]);
        }
        lemma_units_join(bytes, blocks, front, from, mid, fparts);
        lemma_cut_ordered(front, from, mid);
        lemma_chunks_join(bytes, blocks, from, mid, to, joined(fparts), parts[n]);
    }
}

proof fn lemma_cut_ordered(units: Seq<(usize, usize)>, from: int, to: int)
    requires
        cut(units, from, to),
    ensures
        from <= to,
    decreases units.len(),
{
    let n = units.len() - 1;
    if n > 0 {
        let front = units.drop_last();
        assert forall|i: int| 0 <= i < front.len() implies (#[trigger] front[i]).0 <= front[i].1 by {
            assert(front[i] == units[i]);
        }
        assert forall|i: int| 0 <= i < front.len() - 1 implies (#[trigger] front[i]).1 == front[i
            + 1].0 by {
            assert(front[i] == units[i]);
        }
        assert(units[n - 1].1 == units[n].0);
        lemma_cut_ordered(front, from, units[n - 1].1 as int);
    }
    assert(units[n].0 <= units[n].1);
}

/// `bytes` with `v` written at every listed position.
pub open spec fn written(bytes: Seq<u8>, at: Seq<usize>, v: u8) -> Seq<u8> {
    Seq::new(
        bytes.len(),
        |i: int|
            if at.contains(i as usize) {
                v
            } else {
                bytes[i]
            },
    )
}

fn write_at(bytes: &mut Vec<u8>, at: &Vec<usize>, v: u8)
    requires
        forall|i: int| 0 <= i < at@.len() ==> (#[trigger] at@[i]) < old(bytes)@.len(),
    ensures
        final(bytes)@ == written(old(bytes)@, at@, v),
{
    let ghost orig = bytes@;
    let n = bytes.len();
    let mut k: usize = 0;
    assert(bytes@ =~= written(orig, at@.take(0), v));
    while k < at.len()
        invariant
            k <= at@.len(),
            n == orig.len(),
            bytes@.len() == orig.len(),
            forall|i: int| 0 <= i < at@.len() ==> (#[trigger] at@[i]) < orig.len(),
            bytes@ == written(orig, at@.take(k as int), v),
        decreases at@.len() - k,
    {
        let j = at[k];
        let ghost before = bytes@;
        bytes.set(j, v);
        proof {
            let t = at@.take(k as int);
            let u = at@.take(k + 1);
            assert(u =~= t.push(j));
            assert forall|i: usize| u.contains(i) <==> (t.contains(i) || i == j) by {
                if t.contains(i) {
                    let w = choose|w: int| 0 <= w < t.len() && t[w] == i;
                    assert(u[w] == i);
                }
                if u.contains(i) && i != j {
                    let w = choose|w: int| 0 <= w < u.len() && u[w] == i;
                    assert(t[w] == i);
                }
                assert(u[k as int] == j);
            }
            assert forall|i: int| 0 <= i < orig.len() implies #[trigger] bytes@[i] == written(
                orig,
                u,
                v,
            )[i] by {
                assert(written(orig, t, v)[i] == before[i]);
                assert(u.contains(i as usize) <==> (t.contains(i as usize) || i as usize == j));
            }
            assert(bytes@ =~= written(orig, u, v));
        }
        k = k + 1;
    }
    assert(at@.take(at@.len() as int) =~= at@);
}

/// Put the separator commas of a chunk back.
pub fn restore_commas(bytes: &mut Vec<u8>, commas: &Vec<usize>)
    requires
        forall|i: int| 0 <= i < commas@.len() ==> (#[trigger] commas@[i]) < old(bytes)@.len(),
    ensures
        final(bytes)@ == written(old(bytes)@, commas@, COMMA),
{
    write_at(bytes, commas, COMMA)
}

/// Restoring the commas that were blanked gives back the bytes as they were.
pub proof fn lemma_restore_blanked(bytes: Seq<u8>, ranges: Seq<(usize, usize)>, to: int)
    requires
        bytes.len() <= usize::MAX,
    ensures
        ({
            let commas = commas_after(bytes, ranges, to);
            written(written(bytes, commas, SPACE), commas, COMMA) == bytes
        }),
{
    let commas = commas_after(bytes, ranges, to);
    lemma_commas(bytes, ranges, to);
    let back = written(written(bytes, commas, SPACE), commas, COMMA);
    assert forall|i: int| 0 <= i < bytes.len() implies back[i] == bytes[i] by {
        if commas.contains(i as usize) {
            let w = choose|w: int| 0 <= w < commas.len() && commas[w] == i as usize;
            assert(bytes[commas[w] as int] == COMMA);
        }
    }
    assert(back =~= bytes);
}

/// Every listed position holds a comma.
pub(crate) proof fn lemma_commas(bytes: Seq<u8>, ranges: Seq<(usize, usize)>, to: int)
    requires
        bytes.len() <= usize::MAX,
    ensures
        forall|i: int|
            0 <= i < commas_after(bytes, ranges, to).len() ==> {
                let j = #[trigger] commas_after(bytes, ranges, to)[i];
                j < bytes.len() && bytes[j as int] == COMMA
            },
    decreases ranges.len(),
{
    if ranges.len() > 0 {
        lemma_commas(bytes, ranges.drop_last(), to);
        lemma_ws_end(bytes, ranges.last().1 as int);
        let c = commas_after(bytes, ranges, to);
        let before = commas_after(bytes, ranges.drop_last(), to);
        assert forall|i: int| 0 <= i < c.len() implies {
            let j = #[trigger] c[i];
            j < bytes.len() && bytes[j as int] == COMMA
        } by {
            if i < before.len() {
                assert(c[i] == before[i]);
            }
        }
    }
}

pub(crate) proof fn lemma_ws_end(bytes: Seq<u8>, p: int)
    ensures
        p <= ws_end(bytes, p),
        p <= bytes.len() ==> ws_end(bytes, p) <= bytes.len(),
    decreases bytes.len() - p,
{
    if 0 <= p < bytes.len() && crate::trace::token::is_ws(bytes[p]) {
        lemma_ws_end(bytes, p + 1);
    }
}

/// The work on one chunk: its events, or the slice that is left to a full
/// parser, its separator commas blanked.
pub enum ChunkOutcome {
    Parsed(Vec<TraceEvent>),
    Blanked { start: usize, end: usize, commas: Vec<usize> },
}

/// What is made of a chunk whose owned elements are `ranges`: no events where
/// there are none; the events where the tokenizer reads all of the slice they
/// span; otherwise the slice, with the commas between its elements blanked.
pub open spec fn outcome_of(
    before: Seq<u8>,
    ranges: Seq<(usize, usize)>,
    to: int,
    outcome: ChunkOutcome,
    after: Seq<u8>,
) -> bool {
    if ranges.len() == 0 {
        after == before && match outcome {
            ChunkOutcome::Parsed(events) => events@.len() == 0,
            ChunkOutcome::Blanked { .. } => false,
        }
    } else {
        let s = ranges[0].0;
        let e = ranges.last().1;
        match events_between(before, s as int, e as int) {
            Some(views) => after == before && match outcome {
                ChunkOutcome::Parsed(events) => event_views(events@) == views,
                ChunkOutcome::Blanked { .. } => false,
            },
            None => match outcome {
                ChunkOutcome::Parsed(_) => false,
                ChunkOutcome::Blanked { start, end, commas } => {
                    &&& start == s
                    &&& end == e
                    &&& commas@ == commas_after(before, ranges, to)
                    &&& after == written(before, commas@, SPACE)
                },
            },
        }
    }
}

/// What is made of the chunk `[from, to)`.
pub open spec fn chunk_of(
    bytes: Seq<u8>,
    blocks: Blocks,
    from: int,
    to: int,
    outcome: ChunkOutcome,
    after: Seq<u8>,
) -> bool {
    exists|ranges: Seq<(usize, usize)>| #[trigger]
        owned_elements(bytes, blocks, from, to, ranges) && outcome_of(
            bytes,
            ranges,
            to,
            outcome,
            after,
        )
}

/// Find the elements that `[from, to)` owns and parse the slice they span with
/// the tokenizer; where it does not read them, blank their separator commas
/// for a full parser that takes a stream of values.
pub fn chunk_work(bytes: &mut Vec<u8>, blocks: &Blocks, from: usize, to: usize) -> (r: ChunkOutcome)
    requires
        old(bytes)@.len() <= i64::MAX,
        blocks_of(old(bytes)@, *blocks),
        from < old(bytes)@.len(),
    ensures
        chunk_of(old(bytes)@, *blocks, from as int, to as int, r, final(bytes)@),
{
    let chunk = scan_chunk(bytes.as_slice(), blocks, from, to);
    let ghost ranges = chunk.ranges@;
    if chunk.ranges.len() == 0 {
        return ChunkOutcome::Parsed(Vec::new());
    }
    let start = chunk.ranges[0].0;
    let end = chunk.ranges[chunk.ranges.len() - 1].1;
    proof {
        let k = ranges.len() - 1;
        assert(element(
            bytes@,
            *blocks,
            from as int / BLOCK as int,
            ranges[k].0 as int,
            ranges[k].1 - 1,
        ));
        assert(element(
            bytes@,
            *blocks,
            from as int / BLOCK as int,
            ranges[0].0 as int,
            ranges[0].1 - 1,
        ));
        if k > 0 {
            assert(ranges[0].1 <= ranges[k].0);
        }
    }
    match parse_events_fast(bytes.as_slice(), start, end) {
        Ok(events) => ChunkOutcome::Parsed(events),
        Err(_) => {
            let n = bytes.len();
            proof {
                assert(bytes@.len() == n);
                lemma_commas(bytes@, ranges, to as int);
            }
            write_at(bytes, &chunk.commas, SPACE);
            ChunkOutcome::Blanked { start, end, commas: chunk.commas }
        },
    }
}

/// Where reading the events from `p` up to `e` stops: after the last event or
/// comma that was read.
pub open spec fn events_stop(bytes: Seq<u8>, p: int, e: int) -> Option<int>
    decreases bytes.len() - p,
{
    let k = ws_end(bytes, p);
    if p < 0 || k < p || k >= e || k >= bytes.len() {
        Some(p)
    } else if bytes[k] == COMMA {
        events_stop(bytes, k + 1, e)
    } else {
        match crate::trace::token::event_at(bytes, k) {
            Some((_, next)) => if next <= k || next > bytes.len() {
                None
            } else {
                events_stop(bytes, next, e)
            },
            None => None,
        }
    }
}

proof fn lemma_ws_same(bytes: Seq<u8>, x: int, m: int)
    requires
        0 <= x <= m <= bytes.len(),
        m <= ws_end(bytes, x),
    ensures
        ws_end(bytes, x) == ws_end(bytes, m),
    decreases m - x,
{
    if x < m {
        lemma_ws_same(bytes, x + 1, m);
    }
}

/// Reading the events of a slice is reading those of its two parts, where
/// reading the first part does not run past the cut: the parts of an array
/// give the events that the whole gives.
pub proof fn lemma_events_join(bytes: Seq<u8>, p: int, m: int, e: int)
    requires
        0 <= p <= bytes.len(),
        m <= e <= bytes.len(),
        events_stop(bytes, p, m) matches Some(x) && x <= m,
        events_between(bytes, p, m) is Some,
    ensures
        events_between(bytes, p, e) == (match events_between(bytes, m, e) {
            Some(rest) => Some(events_between(bytes, p, m)->0 + rest),
            None => None,
        }),
    decreases bytes.len() - p,
{
    let k = ws_end(bytes, p);
    lemma_ws_end(bytes, p);
    if k >= m || k >= bytes.len() {
        lemma_ws_same(bytes, p, m);
        lemma_ws_end(bytes, m);
        let a = events_between(bytes, m, e);
        assert(events_between(bytes, p, e) == a);
        assert(a matches Some(rest) ==> Seq::<crate::trace::event::EventView>::empty() + rest =~= rest);
    } else if bytes[k] == COMMA {
        lemma_events_join(bytes, k + 1, m, e);
    } else {
        let (ev, next) = crate::trace::token::event_at(bytes, k)->0;
        lemma_events_join(bytes, next, m, e);
        let a = events_between(bytes, next, m)->0;
        assert forall|rest: Seq<crate::trace::event::EventView>| seq![ev] + (a + rest) == #[trigger] ((seq![ev]
            + a) + rest) by {
            assert(seq![ev] + (a + rest) =~= (seq![ev] + a) + rest);
        }
    }
}

/// Smallest and largest bytes of a unit of parallel work.
pub const UNIT_MIN: usize = BLOCK;

pub const UNIT_MAX: usize = 4194304;

/// Bytes per unit for a span that `threads` workers share.
pub open spec fn unit_size(span: int, threads: int) -> int {
    let u = span / (threads * 8);
    if u < UNIT_MIN {
        UNIT_MIN as int
    } else if u > UNIT_MAX {
        UNIT_MAX as int
    } else {
        u
    }
}

/// Number of workers: as many as wanted, but no more than there are bytes, and
/// at least one.
pub fn thread_count(wanted: usize, span: usize) -> (r: usize)
    ensures
        r == if wanted == 0 || span == 0 {
            1
        } else if wanted <= span {
            wanted
        } else {
            span
        },
{
    let m: usize = if wanted <= span {
        wanted
    } else {
        span
    };
    if m == 0 {
        1
    } else {
        m
    }
}

/// Cut the array into units of work: one for a single worker, otherwise units
/// of equal size, the last one shorter.
pub fn plan_units(arr_open: usize, arr_close: usize, threads: usize) -> (r: Vec<(usize, usize)>)
    requires
        arr_open < arr_close,
        arr_close + UNIT_MAX <= usize::MAX,
        threads * 8 <= usize::MAX,
    ensures
        cut(r@, arr_open as int, arr_close as int),
        threads <= 1 ==> r@.len() == 1,
        threads > 1 ==> forall|i: int|
            0 <= i < r@.len() - 1 ==> (#[trigger] r@[i]).1 - r@[i].0 == unit_size(
                arr_close - arr_open,
                threads as int,
            ),
        threads > 1 ==> 0 < r@.last().1 - r@.last().0 <= unit_size(
            arr_close - arr_open,
            threads as int,
        ),
{
    let mut units: Vec<(usize, usize)> = Vec::new();
    let span: usize = arr_close - arr_open;
    if threads <= 1 {
        units.push((arr_open, arr_close));
        return units;
    }
    let raw: usize = span / (threads * 8);
    let unit: usize = if raw < UNIT_MIN {
        UNIT_MIN
    } else if raw > UNIT_MAX {
        UNIT_MAX
    } else {
        raw
    };
    let mut from: usize = arr_open;
    while arr_close - from > unit
        invariant
            arr_open <= from < arr_close,
            arr_close + UNIT_MAX <= usize::MAX,
            UNIT_MIN <= unit <= UNIT_MAX,
            units@.len() == 0 ==> from == arr_open,
            units@.len() > 0 ==> units@[0].0 == arr_open && units@.last().1 == from,
            forall|i: int|
                0 <= i < units@.len() ==> (#[trigger] units@[i]).1 - units@[i].0 == unit,
            forall|i: int| 0 <= i < units@.len() - 1 ==> (#[trigger] units@[i]).1 == units@[i + 1].0,
        decreases arr_close - from,
    {
        let ghost before = units@;
        units.push((from, from + unit));
        assert forall|i: int| 0 <= i < units@.len() - 1 implies (#[trigger] units@[i]).1 == units@[i
            + 1].0 by {
            assert(units@[i] == before[i]);
        }
        from = from + unit;
    }
    let ghost before = units@;
    units.push((from, arr_close));
    assert forall|i: int| 0 <= i < units@.len() - 1 implies (#[trigger] units@[i]).1 == units@[i
        + 1].0 by {
        assert(units@[i] == before[i]);
    }
    units
}

} // verus!
