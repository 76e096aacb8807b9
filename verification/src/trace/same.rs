//! A text has one layout, and with it one list of events: what is made of it
//! does not depend on who shares the work.

use vstd::prelude::*;
use vstd::utf8::encode_utf8;
use crate::bytes::{LBRACE, RBRACE, RBRACKET};
use crate::trace::chunk::{cut, elem_close, elem_open, element, has_range, owned_elements};
use crate::trace::event::EventView;
use crate::trace::load::{
    opened_of,
    parallel_of,
    text_fits,
    unit_gives,
    unit_of,
    units_of,
    Opened,
    Unit,
};
use crate::trace::reader::{element_reads, lemma_parallel_reads, parallel_reads, readable};
use crate::trace::scan::{
    array_closes,
    array_closes_in,
    block_closes,
    block_count,
    block_start,
    block_state,
    blocks_of,
    closes_second,
    exact,
    in_tail,
    layout_of,
    lex_at,
    lex_start,
    lex_walk,
    member_value,
    metadata_range,
    no_layout,
    opens_first,
    top_level_member,
    Blocks,
    Layout,
    BLOCK,
};

verus! {

/// Two tables record the same state at every block.
spec fn alike(a: Blocks, b: Blocks) -> bool {
    forall|k: int| #[trigger] block_state(a, k) == block_state(b, k)
}

proof fn lemma_depths(bytes: Seq<u8>, a: Blocks, b: Blocks, k: int)
    requires
        blocks_of(bytes, a),
        blocks_of(bytes, b),
        0 <= k <= block_count(bytes.len()),
    ensures
        a.depth_at@[k] == b.depth_at@[k],
    decreases k,
{
    if k > 0 {
        lemma_depths(bytes, a, b, k - 1);
        assert(a.in_string_at@[k - 1] == b.in_string_at@[k - 1]);
        assert(a.esc_at@[k - 1] == b.esc_at@[k - 1]);
        assert(block_state(a, k - 1) == block_state(b, k - 1));
    }
}

/// A text has one table of blocks.
proof fn lemma_alike(bytes: Seq<u8>, a: Blocks, b: Blocks)
    requires
        blocks_of(bytes, a),
        blocks_of(bytes, b),
    ensures
        alike(a, b),
{
    assert forall|k: int| 0 <= k < a.depth_at@.len() implies #[trigger] a.depth_at@[k]
        == b.depth_at@[k] by {
        lemma_depths(bytes, a, b, k);
    }
    assert(a.depth_at@ =~= b.depth_at@);
    assert(a.in_string_at@ =~= b.in_string_at@);
    assert forall|k: int| 0 <= k < a.esc_at@.len() implies #[trigger] a.esc_at@[k] == b.esc_at@[k] by {
        assert(a.in_string_at@[k] == b.in_string_at@[k]);
    }
    assert(a.esc_at@ =~= b.esc_at@);
}

proof fn lemma_lex_alike(bytes: Seq<u8>, a: Blocks, b: Blocks, block: int, pos: int)
    requires
        alike(a, b),
    ensures
        lex_at(bytes, a, block, pos) == lex_at(bytes, b, block, pos),
{
    assert(block_state(a, block) == block_state(b, block));
}

proof fn lemma_element_alike(bytes: Seq<u8>, a: Blocks, b: Blocks, block: int, i: int, j: int)
    requires
        alike(a, b),
        element(bytes, a, block, i, j),
    ensures
        element(bytes, b, block, i, j),
{
    lemma_lex_alike(bytes, a, b, block, i);
    lemma_lex_alike(bytes, a, b, block, j);
    assert forall|k: int|
        #![trigger elem_open(bytes, b, block, k)]
        #![trigger elem_close(bytes, b, block, k)]
        i < k < j implies !elem_open(bytes, b, block, k) && !elem_close(bytes, b, block, k) by {
        lemma_lex_alike(bytes, a, b, block, k);
        assert(!elem_open(bytes, a, block, k));
    }
}

/// The elements of a range are the same by both tables.
proof fn lemma_owned_alike(
    bytes: Seq<u8>,
    a: Blocks,
    b: Blocks,
    from: int,
    to: int,
    ranges: Seq<(usize, usize)>,
)
    requires
        alike(a, b),
        owned_elements(bytes, a, from, to, ranges),
    ensures
        owned_elements(bytes, b, from, to, ranges),
{
    let block = from / BLOCK as int;
    assert(alike(b, a)) by {
        assert forall|k: int| #[trigger] block_state(b, k) == block_state(a, k) by {
            assert(block_state(a, k) == block_state(b, k));
        }
    }
    assert forall|n: int| 0 <= n < ranges.len() implies from <= (#[trigger] ranges[n]).0 < to
        && element(bytes, b, block, ranges[n].0 as int, ranges[n].1 - 1) by {
        lemma_element_alike(bytes, a, b, block, ranges[n].0 as int, ranges[n].1 - 1);
    }
    assert forall|i: int, j: int|
        from <= i < to && #[trigger] element(bytes, b, block, i, j) implies has_range(
        ranges,
        i,
        j,
    ) by {
        lemma_element_alike(bytes, b, a, block, i, j);
    }
}

proof fn lemma_member_alike(bytes: Seq<u8>, a: Blocks, b: Blocks, key: Seq<u8>, m: int)
    requires
        alike(a, b),
    ensures
        top_level_member(bytes, a, key, m) == top_level_member(bytes, b, key, m),
{
    match member_value(bytes, key, m) {
        Some(j) => {
            lemma_lex_alike(bytes, a, b, j / BLOCK as int, j);
        },
        None => {},
    }
}

/// A member's value opens at one place.
proof fn lemma_opens_once(bytes: Seq<u8>, a: Blocks, b: Blocks, key: Seq<u8>, i: int, j: int)
    requires
        alike(a, b),
        opens_first(bytes, a, key, i),
        opens_first(bytes, b, key, j),
    ensures
        i == j,
{
    let m = choose|m: int|
        {
            &&& #[trigger] top_level_member(bytes, a, key, m)
            &&& member_value(bytes, key, m) == Some(i)
            &&& forall|n: int| 0 <= n < m ==> !#[trigger] top_level_member(bytes, a, key, n)
        };
    let n = choose|m: int|
        {
            &&& #[trigger] top_level_member(bytes, b, key, m)
            &&& member_value(bytes, key, m) == Some(j)
            &&& forall|n: int| 0 <= n < m ==> !#[trigger] top_level_member(bytes, b, key, n)
        };
    lemma_member_alike(bytes, a, b, key, m);
    lemma_member_alike(bytes, a, b, key, n);
}

proof fn lemma_close_alike(bytes: Seq<u8>, a: Blocks, b: Blocks, block: int, i: int, c: u8)
    requires
        alike(a, b),
    ensures
        closes_second(bytes, a, block, i, c) == closes_second(bytes, b, block, i, c),
{
    lemma_lex_alike(bytes, a, b, block, i);
}

proof fn lemma_block_closes_alike(bytes: Seq<u8>, a: Blocks, b: Blocks, k: int)
    requires
        alike(a, b),
        block_closes(bytes, a, k),
    ensures
        block_closes(bytes, b, k),
{
    let i = choose|i: int|
        block_start(bytes.len(), k) <= i < block_start(
            bytes.len(),
            k + 1,
        ) && #[trigger] closes_second(bytes, a, k, i, RBRACKET);
    lemma_close_alike(bytes, a, b, k, i, RBRACKET);
}

/// The array closes at one place.
proof fn lemma_closes_once(bytes: Seq<u8>, a: Blocks, b: Blocks, i: int, j: int)
    requires
        alike(a, b),
        alike(b, a),
        array_closes(bytes, a, i),
        array_closes(bytes, b, j),
    ensures
        i == j,
{
    let k = choose|k: int| #[trigger] array_closes_in(bytes, a, k, i);
    let l = choose|k: int| #[trigger] array_closes_in(bytes, b, k, j);
    assert(block_closes(bytes, a, k));
    assert(block_closes(bytes, b, l));
    lemma_block_closes_alike(bytes, a, b, k);
    lemma_block_closes_alike(bytes, b, a, l);
    assert(k == l);
    lemma_close_alike(bytes, a, b, k, i, RBRACKET);
    lemma_close_alike(bytes, a, b, k, j, RBRACKET);
}

/// The metadata stand at one place.
proof fn lemma_metadata_once(
    bytes: Seq<u8>,
    a: Blocks,
    b: Blocks,
    x: Option<(usize, usize)>,
    y: Option<(usize, usize)>,
)
    requires
        alike(a, b),
        alike(b, a),
        metadata_range(bytes, a, x),
        metadata_range(bytes, b, y),
    ensures
        x is Some ==> x == y,
{
    let key = encode_utf8("metadata"@);
    if let Some((s, e)) = x {
        let block = s as int / BLOCK as int;
        let m = choose|m: int|
            {
                &&& #[trigger] top_level_member(bytes, a, key, m)
                &&& member_value(bytes, key, m) == Some(s as int)
                &&& forall|n: int| 0 <= n < m ==> !#[trigger] top_level_member(bytes, a, key, n)
            };
        lemma_member_alike(bytes, a, b, key, m);
        lemma_close_alike(bytes, a, b, block, e - 1, RBRACE);
        match y {
            Some((t, f)) => {
                lemma_opens_once(bytes, a, b, key, s as int, t as int);
                lemma_close_alike(bytes, a, b, block, f - 1, RBRACE);
            },
            None => {
                let t = choose|t: int|
                    #[trigger] opens_first(bytes, b, key, t) && (bytes[t] != LBRACE || forall|j: int|
                        t <= j < bytes.len() ==> !#[trigger] closes_second(
                            bytes,
                            b,
                            t / BLOCK as int,
                            j,
                            RBRACE,
                        ));
                lemma_opens_once(bytes, a, b, key, s as int, t);
            },
        }
    }
}

/// A text has one layout, if any: what one search finds, every other finds too,
/// and none finds that there is no layout.
pub proof fn lemma_one_layout(bytes: Seq<u8>, a: Blocks, x: Layout, b: Blocks)
    requires
        blocks_of(bytes, a),
        layout_of(bytes, a, x),
        blocks_of(bytes, b),
    ensures
        !no_layout(bytes, b),
        forall|y: Layout| #[trigger]
            layout_of(bytes, b, y) ==> x.arr_open == y.arr_open && x.arr_close == y.arr_close
                && x.metadata == y.metadata,
{
    lemma_alike(bytes, a, b);
    lemma_alike(bytes, b, a);
    let key = encode_utf8("traceEvents"@);
    assert forall|y: Layout| #[trigger] layout_of(bytes, b, y) implies x.arr_open == y.arr_open
        && x.arr_close == y.arr_close && x.metadata == y.metadata by {
        lemma_opens_once(bytes, a, b, key, x.arr_open as int, y.arr_open as int);
        lemma_closes_once(bytes, a, b, x.arr_close as int, y.arr_close as int);
        lemma_metadata_once(bytes, a, b, x.metadata, y.metadata);
        lemma_metadata_once(bytes, b, a, y.metadata, x.metadata);
    }
    if no_layout(bytes, b) {
        let m = choose|m: int|
            {
                &&& #[trigger] top_level_member(bytes, a, key, m)
                &&& member_value(bytes, key, m) == Some(x.arr_open as int)
                &&& forall|n: int| 0 <= n < m ==> !#[trigger] top_level_member(bytes, a, key, n)
            };
        lemma_member_alike(bytes, a, b, key, m);
        let open = choose|open: int|
            {
                &&& #[trigger] opens_first(bytes, b, key, open)
                &&& {
                    ||| open + 1 >= bytes.len()
                    ||| forall|k: int|
                        in_tail(bytes, k) ==> !#[trigger] block_closes(bytes, b, k)
                    ||| exists|close: int| #[trigger]
                        array_closes(bytes, b, close) && close <= open
                }
            };
        lemma_opens_once(bytes, a, b, key, x.arr_open as int, open);
        let k = choose|k: int| #[trigger] array_closes_in(bytes, a, k, x.arr_close as int);
        assert(block_closes(bytes, a, k));
        lemma_block_closes_alike(bytes, a, b, k);
        let close = choose|close: int| #[trigger] array_closes(bytes, b, close) && close <= open;
        if array_closes(bytes, b, close) && close <= open {
            lemma_closes_once(bytes, a, b, x.arr_close as int, close);
        }
    }
}

/// `evs` are the events of an opened trace: those of its units, one behind the
/// other, as the tokenizer or the reader of single elements gives them.
pub open spec fn opened_reads(
    text: Seq<u8>,
    o: Opened,
    read: spec_fn(Seq<u8>) -> EventView,
    evs: Seq<EventView>,
) -> bool {
    o.units matches Some(r) && exists|blocks: Blocks, layout: Layout|
        {
            &&& blocks_of(text, blocks)
            &&& #[trigger] layout_of(text, blocks, layout)
            &&& parallel_reads(
                text,
                blocks,
                layout.arr_open as int,
                layout.arr_close as int,
                r@,
                read,
                evs,
            )
        }
}

/// However many workers share a trace, opening it gives the same: units where
/// its layout is recognized, the one place of its metadata, and together one
/// event for each element of the array, in file order. This holds for whatever
/// reads the elements that the tokenizer does not.
pub proof fn lemma_parse_trace_agrees(
    text: Seq<u8>,
    blocks: Blocks,
    layout: Layout,
    elements: Seq<(usize, usize)>,
    read: spec_fn(Seq<u8>) -> EventView,
    o: Opened,
)
    requires
        text_fits(text),
        blocks_of(text, blocks),
        exact(text, blocks),
        layout_of(text, blocks, layout),
        owned_elements(
            text,
            blocks,
            layout.arr_open as int,
            layout.arr_close as int,
            elements,
        ),
        readable(text, elements, read),
        opened_of(text, o),
    ensures
        o.units is Some,
        o.metadata == layout.metadata,
        forall|evs: Seq<EventView>| #[trigger]
            opened_reads(text, o, read, evs) <==> evs == element_reads(text, elements, read),
{
    if o.units is None {
        let b = choose|b: Blocks| #[trigger] blocks_of(text, b) && no_layout(text, b);
        lemma_one_layout(text, blocks, layout, b);
    }
    let r = o.units->0;
    let all = element_reads(text, elements, read);
    let from = layout.arr_open as int;
    let to = layout.arr_close as int;
    let (b, l) = choose|b: Blocks, l: Layout|
        {
            &&& blocks_of(text, b)
            &&& #[trigger] layout_of(text, b, l)
            &&& parallel_of(text, b, l.arr_open as int, l.arr_close as int, r@)
            &&& o.metadata == l.metadata
        };
    lemma_one_layout(text, blocks, layout, b);
    lemma_all_alike(text, blocks, b, from, to, elements, r@);
    lemma_parallel_reads(text, b, from, to, elements, read, r@);
    assert(parallel_reads(text, b, from, to, r@, read, all));
    assert forall|evs: Seq<EventView>| #[trigger] opened_reads(text, o, read, evs) implies evs
        == all by {
        let (b2, l2) = choose|b2: Blocks, l2: Layout|
            {
                &&& blocks_of(text, b2)
                &&& #[trigger] layout_of(text, b2, l2)
                &&& parallel_reads(
                    text,
                    b2,
                    l2.arr_open as int,
                    l2.arr_close as int,
                    r@,
                    read,
                    evs,
                )
            };
        lemma_one_layout(text, blocks, layout, b2);
        lemma_all_alike(text, b, b2, from, to, elements, r@);
        lemma_parallel_reads(text, b2, from, to, elements, read, r@);
    }
}

/// What one table says of the array, every other says too.
proof fn lemma_all_alike(
    text: Seq<u8>,
    a: Blocks,
    b: Blocks,
    from: int,
    to: int,
    elements: Seq<(usize, usize)>,
    r: Seq<Unit>,
)
    requires
        blocks_of(text, a),
        blocks_of(text, b),
        exact(text, a),
        owned_elements(text, a, from, to, elements),
    ensures
        exact(text, b),
        owned_elements(text, b, from, to, elements),
        parallel_of(text, a, from, to, r) ==> parallel_of(text, b, from, to, r),
{
    lemma_alike(text, a, b);
    lemma_owned_alike(text, a, b, from, to, elements);
    assert forall|k: int| 0 <= k < block_count(text.len()) implies #[trigger] block_state(b, k)
        == lex_walk(text.take(block_start(text.len(), k)), lex_start()) by {
        assert(block_state(a, k) == block_state(b, k));
    }
    if parallel_of(text, a, from, to, r) {
        let units = choose|units: Seq<(usize, usize)>| #[trigger]
            cut(units, from, to) && units_of(text, a, units, r);
        assert forall|i: int| 0 <= i < r.len() implies unit_of(
            text,
            b,
            units[i].0 as int,
            units[i].1 as int,
            #[trigger] r[i],
        ) by {
            let f = units[i].0 as int;
            let t = units[i].1 as int;
            assert(unit_of(text, a, f, t, r[i]));
            let ranges = choose|ranges: Seq<(usize, usize)>| #[trigger]
                owned_elements(text, a, f, t, ranges) && unit_gives(text, ranges, t, r[i]);
            lemma_owned_alike(text, a, b, f, t, ranges);
        }
        assert(units_of(text, b, units, r));
    }
}

} // verus!
