//! What the units of an array give to whoever reads its elements one by one:
//! the same events, however the array is cut, also where a full parser has to
//! read what the tokenizer does not.

use vstd::prelude::*;
use crate::bytes::{COMMA, LBRACE, SPACE};
use crate::trace::chunk::{
    chunk_of,
    commas_after,
    cut,
    events_stop,
    joined,
    lemma_chunks_join,
    lemma_events_join,
    lemma_owned_unique,
    lemma_units_join,
    lemma_ws_end,
    outcome_of,
    owned_elements,
    written,
    ChunkOutcome,
};
use crate::trace::event::EventView;
use crate::trace::load::{parallel_of, unit_gives, unit_of, units_of, Unit};
use crate::trace::scan::{exact, Blocks};
use crate::trace::token::{event_at, event_views, events_between, is_ws, ws_end};

verus! {

/// The text of an element.
pub open spec fn element_text(bytes: Seq<u8>, r: (usize, usize)) -> Seq<u8> {
    bytes.subrange(r.0 as int, r.1 as int)
}

/// What a reader makes of the elements, one behind the other.
pub open spec fn element_reads(
    bytes: Seq<u8>,
    ranges: Seq<(usize, usize)>,
    read: spec_fn(Seq<u8>) -> EventView,
) -> Seq<EventView> {
    ranges.map_values(|r: (usize, usize)| read(element_text(bytes, r)))
}

/// An element and the next are separated by a comma and white space.
pub open spec fn parted(bytes: Seq<u8>, ranges: Seq<(usize, usize)>, n: int) -> bool {
    let comma = ws_end(bytes, ranges[n].1 as int);
    &&& comma < bytes.len()
    &&& bytes[comma] == COMMA
    &&& ws_end(bytes, comma + 1) == ranges[n + 1].0
}

/// The elements are separated by commas and white space.
pub open spec fn separated(bytes: Seq<u8>, ranges: Seq<(usize, usize)>) -> bool {
    forall|n: int| 0 <= n < ranges.len() - 1 ==> #[trigger] parted(bytes, ranges, n)
}

/// Where the tokenizer reads an element, it reads all of it and makes of it
/// what the reader does.
pub open spec fn tokens_agree(
    bytes: Seq<u8>,
    ranges: Seq<(usize, usize)>,
    read: spec_fn(Seq<u8>) -> EventView,
) -> bool {
    forall|n: int|
        0 <= n < ranges.len() ==> (event_at(bytes, (#[trigger] ranges[n]).0 as int) matches Some(
            (ev, next),
        ) ==> next == ranges[n].1 && ev == read(element_text(bytes, ranges[n])))
}

/// Elements open with a brace, end within the text, and follow one another.
spec fn tidy(bytes: Seq<u8>, ranges: Seq<(usize, usize)>) -> bool {
    &&& forall|n: int|
        0 <= n < ranges.len() ==> {
            &&& (#[trigger] ranges[n]).0 < ranges[n].1 <= bytes.len()
            &&& bytes[ranges[n].0 as int] == LBRACE
        }
    &&& forall|n: int, m: int|
        0 <= n < m < ranges.len() ==> (#[trigger] ranges[n]).1 <= (#[trigger] ranges[m]).0
}

proof fn lemma_tidy(bytes: Seq<u8>, blocks: Blocks, from: int, to: int, ranges: Seq<(usize, usize)>)
    requires
        owned_elements(bytes, blocks, from, to, ranges),
    ensures
        tidy(bytes, ranges),
{
}

proof fn lemma_ws_stops(bytes: Seq<u8>, p: int, q: int)
    requires
        0 <= p <= q < bytes.len(),
        !is_ws(bytes[q]),
    ensures
        ws_end(bytes, p) <= q,
    decreases q - p,
{
    if p < q {
        lemma_ws_stops(bytes, p + 1, q);
    }
}

/// A separator comma stands behind an element and before the next.
proof fn lemma_comma_place(bytes: Seq<u8>, ranges: Seq<(usize, usize)>, to: int, x: usize)
    requires
        bytes.len() <= usize::MAX,
        tidy(bytes, ranges),
        commas_after(bytes, ranges, to).contains(x),
    ensures
        exists|k: int|
            0 <= k < ranges.len() && x == ws_end(bytes, (#[trigger] ranges[k]).1 as int)
                && bytes[x as int] == COMMA && x < bytes.len(),
    decreases ranges.len(),
{
    let all = commas_after(bytes, ranges, to);
    if ranges.len() > 0 {
        let rest = ranges.drop_last();
        let before = commas_after(bytes, rest, to);
        let i = choose|i: int| 0 <= i < all.len() && all[i] == x;
        lemma_ws_end(bytes, ranges.last().1 as int);
        if i < before.len() {
            assert(before[i] == x);
            assert(tidy(bytes, rest)) by {
                assert forall|n: int| 0 <= n < rest.len() implies {
                    &&& (#[trigger] rest[n]).0 < rest[n].1 <= bytes.len()
                    &&& bytes[rest[n].0 as int] == LBRACE
                } by {
                    assert(rest[n] == ranges[n]);
                }
                assert forall|n: int, m: int| 0 <= n < m < rest.len() implies (#[trigger] rest[n]).1
                    <= (#[trigger] rest[m]).0 by {
                    assert(ranges[n].1 <= ranges[m].0);
                }
            }
            lemma_comma_place(bytes, rest, to, x);
            let k = choose|k: int|
                0 <= k < rest.len() && x == ws_end(bytes, (#[trigger] rest[k]).1 as int)
                    && bytes[x as int] == COMMA && x < bytes.len();
            assert(ranges[k] == rest[k]);
        } else {
            assert(ranges[ranges.len() - 1] == ranges.last());
        }
    }
}

/// Blanking the separator commas changes no element.
proof fn lemma_text_kept(bytes: Seq<u8>, ranges: Seq<(usize, usize)>, to: int, n: int)
    requires
        bytes.len() <= usize::MAX,
        tidy(bytes, ranges),
        0 <= n < ranges.len(),
    ensures
        element_text(written(bytes, commas_after(bytes, ranges, to), SPACE), ranges[n])
            == element_text(bytes, ranges[n]),
{
    let commas = commas_after(bytes, ranges, to);
    let w = written(bytes, commas, SPACE);
    let r = ranges[n];
    assert forall|i: int| r.0 <= i < r.1 implies #[trigger] w[i] == bytes[i] by {
        if commas.contains(i as usize) {
            lemma_comma_place(bytes, ranges, to, i as usize);
            let k = choose|k: int|
                0 <= k < ranges.len() && i as usize == ws_end(bytes, (#[trigger] ranges[k]).1 as int)
                    && bytes[i] == COMMA && i < bytes.len();
            lemma_ws_end(bytes, ranges[k].1 as int);
            if k < n {
                assert(ranges[k].1 <= ranges[n].0);
                lemma_ws_stops(bytes, ranges[k].1 as int, r.0 as int);
            } else if n < k {
                assert(ranges[n].1 <= ranges[k].0);
                assert(ranges[k].0 < ranges[k].1);
            }
        }
    }
    assert(element_text(w, r) =~= element_text(bytes, r));
}

/// Between two elements the tokenizer reads nothing.
proof fn lemma_gap(bytes: Seq<u8>, end: int, start: int)
    requires
        0 <= end <= start <= bytes.len(),
        ws_end(bytes, end) < bytes.len(),
        bytes[ws_end(bytes, end)] == COMMA,
        ws_end(bytes, ws_end(bytes, end) + 1) == start,
    ensures
        events_between(bytes, end, start) == Some(Seq::<EventView>::empty()),
        events_stop(bytes, end, start) matches Some(x) && x <= start,
{
    let comma = ws_end(bytes, end);
    lemma_ws_end(bytes, end);
    lemma_ws_end(bytes, comma + 1);
    assert(events_between(bytes, comma + 1, start) == Some(Seq::<EventView>::empty()));
    assert(events_stop(bytes, comma + 1, start) == Some(comma + 1));
}

/// Where the tokenizer reads all that some elements span, it makes of them what
/// the reader does.
proof fn lemma_read_span(
    bytes: Seq<u8>,
    ranges: Seq<(usize, usize)>,
    read: spec_fn(Seq<u8>) -> EventView,
)
    requires
        tidy(bytes, ranges),
        separated(bytes, ranges),
        tokens_agree(bytes, ranges, read),
        ranges.len() > 0,
        events_between(bytes, ranges[0].0 as int, ranges.last().1 as int) is Some,
    ensures
        events_between(bytes, ranges[0].0 as int, ranges.last().1 as int) == Some(
            element_reads(bytes, ranges, read),
        ),
    decreases ranges.len(),
{
    let r = ranges[0];
    let e = ranges.last().1 as int;
    let last = ranges[ranges.len() - 1];
    let rest = ranges.drop_first();
    if ranges.len() > 1 {
        assert(ranges[0].1 <= ranges[ranges.len() - 1].0);
    }
    assert(ws_end(bytes, r.0 as int) == r.0);
    let (ev, next) = event_at(bytes, r.0 as int)->0;
    assert(next == r.1 && ev == read(element_text(bytes, r)));
    if rest.len() == 0 {
        lemma_ws_end(bytes, next);
        assert(events_between(bytes, next, e) == Some(Seq::<EventView>::empty()));
        assert(seq![ev] + Seq::<EventView>::empty() =~= element_reads(bytes, ranges, read));
    } else {
        let m = ranges[1].0 as int;
        assert(ranges[1].0 < ranges[1].1);
        if ranges.len() > 2 {
            assert(ranges[1].1 <= ranges[ranges.len() - 1].0);
        }
        assert(parted(bytes, ranges, 0));
        lemma_gap(bytes, r.1 as int, m);
        lemma_events_join(bytes, r.1 as int, m, e);
        let tail = events_between(bytes, m, e)->0;
        assert(Seq::<EventView>::empty() + tail =~= tail);
        assert(rest[0] == ranges[1]);
        assert(rest.last() == ranges.last());
        lemma_part(bytes, ranges, read, 1, ranges.len() as int);
        assert(rest =~= ranges.subrange(1, ranges.len() as int));
        lemma_read_span(bytes, rest, read);
        assert(seq![ev] + element_reads(bytes, rest, read) =~= element_reads(bytes, ranges, read));
    }
}

/// What holds of elements holds of some that follow one another.
proof fn lemma_part(
    bytes: Seq<u8>,
    ranges: Seq<(usize, usize)>,
    read: spec_fn(Seq<u8>) -> EventView,
    a: int,
    b: int,
)
    requires
        0 <= a <= b <= ranges.len(),
        tidy(bytes, ranges),
        separated(bytes, ranges),
        tokens_agree(bytes, ranges, read),
    ensures
        tidy(bytes, ranges.subrange(a, b)),
        separated(bytes, ranges.subrange(a, b)),
        tokens_agree(bytes, ranges.subrange(a, b), read),
{
    let p = ranges.subrange(a, b);
    assert forall|n: int| 0 <= n < p.len() implies {
        &&& (#[trigger] p[n]).0 < p[n].1 <= bytes.len()
        &&& bytes[p[n].0 as int] == LBRACE
    } by {
        let x = ranges[a + n];
    }
    assert forall|n: int, m: int| 0 <= n < m < p.len() implies (#[trigger] p[n]).1 <= (
    #[trigger] p[m]).0 by {
        assert(ranges[a + n].1 <= ranges[a + m].0);
    }
    assert forall|n: int| 0 <= n < p.len() - 1 implies #[trigger] parted(bytes, p, n) by {
        assert(parted(bytes, ranges, a + n));
    }
    assert forall|n: int| 0 <= n < p.len() implies (event_at(bytes, (#[trigger] p[n]).0 as int)
        matches Some((ev, next)) ==> next == p[n].1 && ev == read(element_text(bytes, p[n]))) by {
        let x = ranges[a + n];
    }
}

/// The events of a chunk of which the owned elements are `ranges`: those of the
/// tokenizer, or what the reader makes of the elements in the blanked bytes.
pub open spec fn outcome_reads(
    ranges: Seq<(usize, usize)>,
    outcome: ChunkOutcome,
    after: Seq<u8>,
    read: spec_fn(Seq<u8>) -> EventView,
) -> Seq<EventView> {
    match outcome {
        ChunkOutcome::Parsed(v) => event_views(v@),
        ChunkOutcome::Blanked { .. } => element_reads(after, ranges, read),
    }
}

/// The elements that start in `[from, to)`, in file order.
pub open spec fn elements_in(bytes: Seq<u8>, blocks: Blocks, from: int, to: int) -> Seq<
    (usize, usize),
> {
    choose|ranges: Seq<(usize, usize)>| #[trigger] owned_elements(bytes, blocks, from, to, ranges)
}

/// The events that a call gave for the chunk `[from, to)`.
pub open spec fn chunk_events(
    bytes: Seq<u8>,
    blocks: Blocks,
    from: int,
    to: int,
    call: (ChunkOutcome, Seq<u8>),
    read: spec_fn(Seq<u8>) -> EventView,
) -> Seq<EventView> {
    outcome_reads(elements_in(bytes, blocks, from, to), call.0, call.1, read)
}

/// The elements can be read: they are separated by commas, and the tokenizer
/// agrees with the reader on those that it reads.
pub open spec fn readable(
    bytes: Seq<u8>,
    ranges: Seq<(usize, usize)>,
    read: spec_fn(Seq<u8>) -> EventView,
) -> bool {
    separated(bytes, ranges) && tokens_agree(bytes, ranges, read)
}

proof fn lemma_outcome_reads(
    bytes: Seq<u8>,
    ranges: Seq<(usize, usize)>,
    to: int,
    outcome: ChunkOutcome,
    after: Seq<u8>,
    read: spec_fn(Seq<u8>) -> EventView,
)
    requires
        bytes.len() <= usize::MAX,
        tidy(bytes, ranges),
        separated(bytes, ranges),
        tokens_agree(bytes, ranges, read),
        outcome_of(bytes, ranges, to, outcome, after),
    ensures
        outcome_reads(ranges, outcome, after, read) == element_reads(bytes, ranges, read),
{
    if ranges.len() == 0 {
        assert(outcome_reads(ranges, outcome, after, read) =~= element_reads(bytes, ranges, read));
    } else if events_between(bytes, ranges[0].0 as int, ranges.last().1 as int) is Some {
        lemma_read_span(bytes, ranges, read);
    } else {
        assert forall|n: int| 0 <= n < ranges.len() implies element_reads(after, ranges, read)[n]
            == element_reads(bytes, ranges, read)[n] by {
            lemma_text_kept(bytes, ranges, to, n);
        }
        assert(element_reads(after, ranges, read) =~= element_reads(bytes, ranges, read));
    }
}

/// Two calls on chunks that lie side by side give together what one call on
/// both gives: every element occurs once, in file order, in the chunk that
/// holds its opening brace, however large it is. This holds for whatever reads
/// the elements that the tokenizer does not.
pub proof fn lemma_chunk_work_joins(
    bytes: Seq<u8>,
    blocks: Blocks,
    from: int,
    mid: int,
    to: int,
    read: spec_fn(Seq<u8>) -> EventView,
    a: (ChunkOutcome, Seq<u8>),
    b: (ChunkOutcome, Seq<u8>),
    whole: (ChunkOutcome, Seq<u8>),
)
    requires
        bytes.len() <= usize::MAX,
        exact(bytes, blocks),
        0 <= from <= mid <= to,
        readable(bytes, elements_in(bytes, blocks, from, to), read),
        chunk_of(bytes, blocks, from, mid, a.0, a.1),
        chunk_of(bytes, blocks, mid, to, b.0, b.1),
        chunk_of(bytes, blocks, from, to, whole.0, whole.1),
    ensures
        chunk_events(bytes, blocks, from, mid, a, read) + chunk_events(
            bytes,
            blocks,
            mid,
            to,
            b,
            read,
        ) == chunk_events(bytes, blocks, from, to, whole, read),
        chunk_events(bytes, blocks, from, to, whole, read) == element_reads(
            bytes,
            elements_in(bytes, blocks, from, to),
            read,
        ),
        elements_in(bytes, blocks, from, mid) + elements_in(bytes, blocks, mid, to) == elements_in(
            bytes,
            blocks,
            from,
            to,
        ),
{
    let ra = elements_in(bytes, blocks, from, mid);
    let rb = elements_in(bytes, blocks, mid, to);
    let rw = elements_in(bytes, blocks, from, to);
    lemma_chunk_elements(bytes, blocks, from, mid, a);
    lemma_chunk_elements(bytes, blocks, mid, to, b);
    lemma_chunk_elements(bytes, blocks, from, to, whole);
    assert(ra + rb == rw && tidy(bytes, rw)) by {
        reveal(owns);
        lemma_chunks_join(bytes, blocks, from, mid, to, ra, rb);
        lemma_owned_unique(bytes, blocks, from, to, ra + rb, rw);
        lemma_tidy(bytes, blocks, from, to, rw);
    }
    lemma_sides(bytes, mid, to, ra, rb, read, a, b);
    lemma_outcome_reads(bytes, rw, to, whole.0, whole.1, read);
}

proof fn lemma_sides(
    bytes: Seq<u8>,
    mid: int,
    to: int,
    ra: Seq<(usize, usize)>,
    rb: Seq<(usize, usize)>,
    read: spec_fn(Seq<u8>) -> EventView,
    a: (ChunkOutcome, Seq<u8>),
    b: (ChunkOutcome, Seq<u8>),
)
    requires
        bytes.len() <= usize::MAX,
        tidy(bytes, ra + rb),
        separated(bytes, ra + rb),
        tokens_agree(bytes, ra + rb, read),
        outcome_of(bytes, ra, mid, a.0, a.1),
        outcome_of(bytes, rb, to, b.0, b.1),
    ensures
        outcome_reads(ra, a.0, a.1, read) + outcome_reads(rb, b.0, b.1, read) == element_reads(
            bytes,
            ra + rb,
            read,
        ),
{
    let k = ra.len() as int;
    let n = (ra + rb).len() as int;
    assert(outcome_reads(ra, a.0, a.1, read) == element_reads(bytes, ra, read)) by {
        lemma_part(bytes, ra + rb, read, 0, k);
        assert((ra + rb).subrange(0, k) =~= ra);
        lemma_outcome_reads(bytes, ra, mid, a.0, a.1, read);
    }
    assert(outcome_reads(rb, b.0, b.1, read) == element_reads(bytes, rb, read)) by {
        lemma_part(bytes, ra + rb, read, k, n);
        assert((ra + rb).subrange(k, n) =~= rb);
        lemma_outcome_reads(bytes, rb, to, b.0, b.1, read);
    }
    lemma_reads_join(bytes, ra, rb, read);
}

proof fn lemma_reads_join(
    bytes: Seq<u8>,
    a: Seq<(usize, usize)>,
    b: Seq<(usize, usize)>,
    read: spec_fn(Seq<u8>) -> EventView,
)
    ensures
        element_reads(bytes, a + b, read) == element_reads(bytes, a, read) + element_reads(
            bytes,
            b,
            read,
        ),
{
    assert(element_reads(bytes, a + b, read) =~= element_reads(bytes, a, read) + element_reads(
        bytes,
        b,
        read,
    ));
}

proof fn lemma_chunk_elements(
    bytes: Seq<u8>,
    blocks: Blocks,
    from: int,
    to: int,
    call: (ChunkOutcome, Seq<u8>),
)
    requires
        chunk_of(bytes, blocks, from, to, call.0, call.1),
    ensures
        owns(bytes, blocks, from, to, elements_in(bytes, blocks, from, to)),
        outcome_of(bytes, elements_in(bytes, blocks, from, to), to, call.0, call.1),
{
    reveal(owns);
    let ranges = choose|ranges: Seq<(usize, usize)>| #[trigger]
        owned_elements(bytes, blocks, from, to, ranges) && outcome_of(
            bytes,
            ranges,
            to,
            call.0,
            call.1,
        );
    lemma_owned_unique(bytes, blocks, from, to, ranges, elements_in(bytes, blocks, from, to));
}

/// `owned_elements`, for proofs that need not look into it.
#[verifier::opaque]
spec fn owns(
    bytes: Seq<u8>,
    blocks: Blocks,
    from: int,
    to: int,
    ranges: Seq<(usize, usize)>,
) -> bool {
    owned_elements(bytes, blocks, from, to, ranges)
}

/// The events of a unit of which the elements are `ranges`: those of the
/// tokenizer, or what the reader makes of the elements in the unit's text.
pub open spec fn unit_reads(
    ranges: Seq<(usize, usize)>,
    u: Unit,
    read: spec_fn(Seq<u8>) -> EventView,
) -> Seq<EventView> {
    match u {
        Unit::Events(v) => event_views(v@),
        Unit::Slice(t) => ranges.map_values(
            |r: (usize, usize)| read(t@.subrange(r.0 - ranges[0].0, r.1 - ranges[0].0)),
        ),
    }
}

/// `evs` are the events of the unit of `[from, to)`.
pub open spec fn unit_read(
    bytes: Seq<u8>,
    blocks: Blocks,
    from: int,
    to: int,
    u: Unit,
    read: spec_fn(Seq<u8>) -> EventView,
    evs: Seq<EventView>,
) -> bool {
    exists|ranges: Seq<(usize, usize)>| #[trigger]
        owned_elements(bytes, blocks, from, to, ranges) && unit_gives(bytes, ranges, to, u) && evs
            == unit_reads(ranges, u, read)
}

proof fn lemma_unit_reads(
    bytes: Seq<u8>,
    ranges: Seq<(usize, usize)>,
    to: int,
    u: Unit,
    read: spec_fn(Seq<u8>) -> EventView,
)
    requires
        bytes.len() <= usize::MAX,
        tidy(bytes, ranges),
        separated(bytes, ranges),
        tokens_agree(bytes, ranges, read),
        unit_gives(bytes, ranges, to, u),
    ensures
        unit_reads(ranges, u, read) == element_reads(bytes, ranges, read),
{
    if ranges.len() == 0 {
        assert(unit_reads(ranges, u, read) =~= element_reads(bytes, ranges, read));
    } else if events_between(bytes, ranges[0].0 as int, ranges.last().1 as int) is Some {
        lemma_read_span(bytes, ranges, read);
    } else {
        let w = written(bytes, commas_after(bytes, ranges, to), SPACE);
        let s = ranges[0].0 as int;
        let e = ranges.last().1 as int;
        let t = w.subrange(s, e);
        let last = ranges[ranges.len() - 1];
        assert forall|n: int| 0 <= n < ranges.len() implies #[trigger] unit_reads(ranges, u, read)[n]
            == element_reads(bytes, ranges, read)[n] by {
            lemma_text_kept(bytes, ranges, to, n);
            let r = ranges[n];
            if n > 0 {
                assert(ranges[0].1 <= ranges[n].0);
                assert(ranges[0].0 < ranges[0].1);
            }
            if n < ranges.len() - 1 {
                assert(ranges[n].1 <= ranges[ranges.len() - 1].0);
                assert(last.0 < last.1);
            }
            assert(t.subrange(r.0 - s, r.1 - s) =~= element_text(w, r));
        }
        assert(unit_reads(ranges, u, read) =~= element_reads(bytes, ranges, read));
    }
}

/// `parts` are the events of the units.
pub open spec fn parts_read(
    bytes: Seq<u8>,
    blocks: Blocks,
    units: Seq<(usize, usize)>,
    r: Seq<Unit>,
    read: spec_fn(Seq<u8>) -> EventView,
    parts: Seq<Seq<EventView>>,
) -> bool {
    &&& r.len() == units.len()
    &&& parts.len() == units.len()
    &&& forall|i: int|
        0 <= i < units.len() ==> unit_read(
            bytes,
            blocks,
            units[i].0 as int,
            units[i].1 as int,
            #[trigger] r[i],
            read,
            parts[i],
        )
}

/// `evs` are the events of what the units of `[from, to)` gave, one behind the
/// other.
pub open spec fn parallel_reads(
    bytes: Seq<u8>,
    blocks: Blocks,
    from: int,
    to: int,
    r: Seq<Unit>,
    read: spec_fn(Seq<u8>) -> EventView,
    evs: Seq<EventView>,
) -> bool {
    exists|units: Seq<(usize, usize)>, parts: Seq<Seq<EventView>>|
        {
            &&& #[trigger] cut(units, from, to)
            &&& parts_read(bytes, blocks, units, r, read, parts)
            &&& evs == #[trigger] joined(parts)
        }
}

/// Two calls on equal bytes, with any numbers of workers, give the same events:
/// one for each element of the array, in file order. This holds for whatever
/// reads the elements that the tokenizer does not.
pub proof fn lemma_parse_parallel_agrees(
    bytes: Seq<u8>,
    blocks: Blocks,
    from: int,
    to: int,
    elements: Seq<(usize, usize)>,
    read: spec_fn(Seq<u8>) -> EventView,
    r1: Seq<Unit>,
    r2: Seq<Unit>,
)
    requires
        bytes.len() <= usize::MAX,
        exact(bytes, blocks),
        0 <= from,
        owned_elements(bytes, blocks, from, to, elements),
        readable(bytes, elements, read),
        parallel_of(bytes, blocks, from, to, r1),
        parallel_of(bytes, blocks, from, to, r2),
    ensures
        forall|evs: Seq<EventView>| #[trigger]
            parallel_reads(bytes, blocks, from, to, r1, read, evs) <==> evs == element_reads(
                bytes,
                elements,
                read,
            ),
        forall|evs: Seq<EventView>| #[trigger]
            parallel_reads(bytes, blocks, from, to, r2, read, evs) <==> evs == element_reads(
                bytes,
                elements,
                read,
            ),
{
    lemma_parallel_reads(bytes, blocks, from, to, elements, read, r1);
    lemma_parallel_reads(bytes, blocks, from, to, elements, read, r2);
}

/// What the units give has one reading: that of the elements.
pub(crate) proof fn lemma_parallel_reads(
    bytes: Seq<u8>,
    blocks: Blocks,
    from: int,
    to: int,
    elements: Seq<(usize, usize)>,
    read: spec_fn(Seq<u8>) -> EventView,
    r: Seq<Unit>,
)
    requires
        bytes.len() <= usize::MAX,
        exact(bytes, blocks),
        0 <= from,
        owned_elements(bytes, blocks, from, to, elements),
        readable(bytes, elements, read),
        parallel_of(bytes, blocks, from, to, r),
    ensures
        forall|evs: Seq<EventView>| #[trigger]
            parallel_reads(bytes, blocks, from, to, r, read, evs) <==> evs == element_reads(
                bytes,
                elements,
                read,
            ),
{
    let all = element_reads(bytes, elements, read);
    let units = choose|units: Seq<(usize, usize)>| #[trigger]
        cut(units, from, to) && units_of(bytes, blocks, units, r);
    let parts = lemma_parts(bytes, blocks, units, r, read);
    lemma_units_read(bytes, blocks, from, to, units, r, elements, read, parts);
    assert(joined(parts) == all);
    assert forall|evs: Seq<EventView>| #[trigger]
        parallel_reads(bytes, blocks, from, to, r, read, evs) implies evs == all by {
        let (u, p) = choose|units: Seq<(usize, usize)>, parts: Seq<Seq<EventView>>|
            {
                &&& #[trigger] cut(units, from, to)
                &&& parts_read(bytes, blocks, units, r, read, parts)
                &&& evs == #[trigger] joined(parts)
            };
        lemma_units_read(bytes, blocks, from, to, u, r, elements, read, p);
    }
}

/// Every unit gives events.
proof fn lemma_parts(
    bytes: Seq<u8>,
    blocks: Blocks,
    units: Seq<(usize, usize)>,
    r: Seq<Unit>,
    read: spec_fn(Seq<u8>) -> EventView,
) -> (parts: Seq<Seq<EventView>>)
    requires
        units_of(bytes, blocks, units, r),
    ensures
        parts_read(bytes, blocks, units, r, read, parts),
{
    let parts = Seq::new(
        units.len(),
        |i: int|
            choose|evs: Seq<EventView>| #[trigger]
                unit_read(
                    bytes,
                    blocks,
                    units[i].0 as int,
                    units[i].1 as int,
                    r[i],
                    read,
                    evs,
                ),
    );
    assert forall|i: int| 0 <= i < units.len() implies unit_read(
        bytes,
        blocks,
        units[i].0 as int,
        units[i].1 as int,
        #[trigger] r[i],
        read,
        parts[i],
    ) by {
        assert(unit_of(bytes, blocks, units[i].0 as int, units[i].1 as int, r[i]));
        let ranges = choose|ranges: Seq<(usize, usize)>| #[trigger]
            owned_elements(bytes, blocks, units[i].0 as int, units[i].1 as int, ranges)
                && unit_gives(bytes, ranges, units[i].1 as int, r[i]);
        assert(unit_read(
            bytes,
            blocks,
            units[i].0 as int,
            units[i].1 as int,
            r[i],
            read,
            unit_reads(ranges, r[i], read),
        ));
    }
    parts
}

/// However the array is cut into units, these give together one event for each
/// of its elements, in file order.
proof fn lemma_units_read(
    bytes: Seq<u8>,
    blocks: Blocks,
    from: int,
    to: int,
    units: Seq<(usize, usize)>,
    r: Seq<Unit>,
    elements: Seq<(usize, usize)>,
    read: spec_fn(Seq<u8>) -> EventView,
    evs: Seq<Seq<EventView>>,
)
    requires
        bytes.len() <= usize::MAX,
        exact(bytes, blocks),
        0 <= from,
        cut(units, from, to),
        parts_read(bytes, blocks, units, r, read, evs),
        owned_elements(bytes, blocks, from, to, elements),
        readable(bytes, elements, read),
    ensures
        joined(evs) == element_reads(bytes, elements, read),
{
    let parts = lemma_unit_parts(bytes, blocks, units, r, read, evs);
    assert(joined(parts) == elements) by {
        assert forall|i: int| 0 <= i < units.len() implies owned_elements(
            bytes,
            blocks,
            (#[trigger] units[i]).0 as int,
            units[i].1 as int,
            parts[i],
        ) by {
            assert(owns(bytes, blocks, units[i].0 as int, units[i].1 as int, parts[i]));
            reveal(owns);
        }
        lemma_units_join(bytes, blocks, units, from, to, parts);
        lemma_owned_unique(bytes, blocks, from, to, joined(parts), elements);
    }
    assert(tidy(bytes, elements)) by {
        lemma_tidy(bytes, blocks, from, to, elements);
    }
    assert(elements.take(elements.len() as int) =~= elements);
    lemma_joined_reads(bytes, units, parts, r, read, evs, elements);
}

/// The elements of each unit.
proof fn lemma_unit_parts(
    bytes: Seq<u8>,
    blocks: Blocks,
    units: Seq<(usize, usize)>,
    r: Seq<Unit>,
    read: spec_fn(Seq<u8>) -> EventView,
    evs: Seq<Seq<EventView>>,
) -> (parts: Seq<Seq<(usize, usize)>>)
    requires
        r.len() == units.len(),
        evs.len() == units.len(),
        forall|i: int|
            0 <= i < units.len() ==> unit_read(
                bytes,
                blocks,
                units[i].0 as int,
                units[i].1 as int,
                #[trigger] r[i],
                read,
                evs[i],
            ),
    ensures
        parts.len() == units.len(),
        forall|i: int|
            0 <= i < units.len() ==> owns(
                bytes,
                blocks,
                units[i].0 as int,
                units[i].1 as int,
                #[trigger] parts[i],
            ) && unit_gives(bytes, parts[i], units[i].1 as int, r[i]) && evs[i] == unit_reads(
                parts[i],
                r[i],
                read,
            ),
    decreases units.len(),
{
    if units.len() == 0 {
        Seq::empty()
    } else {
        let n = units.len() - 1;
        assert forall|i: int| 0 <= i < n implies unit_read(
            bytes,
            blocks,
            units.drop_last()[i].0 as int,
            units.drop_last()[i].1 as int,
            #[trigger] r.drop_last()[i],
            read,
            evs.drop_last()[i],
        ) by {
            let x = r[i];
        }
        let before = lemma_unit_parts(
            bytes,
            blocks,
            units.drop_last(),
            r.drop_last(),
            read,
            evs.drop_last(),
        );
        assert(unit_read(
            bytes,
            blocks,
            units[n].0 as int,
            units[n].1 as int,
            r[n],
            read,
            evs[n],
        ));
        let own = lemma_unit_owned(
            bytes,
            blocks,
            units[n].0 as int,
            units[n].1 as int,
            r[n],
            read,
            evs[n],
        );
        let parts = before.push(own);
        assert forall|i: int| 0 <= i < units.len() implies owns(
            bytes,
            blocks,
            units[i].0 as int,
            units[i].1 as int,
            #[trigger] parts[i],
        ) && unit_gives(bytes, parts[i], units[i].1 as int, r[i]) && evs[i] == unit_reads(
            parts[i],
            r[i],
            read,
        ) by {
            if i < n {
                assert(parts[i] == before[i]);
            }
        }
        parts
    }
}

proof fn lemma_unit_owned(
    bytes: Seq<u8>,
    blocks: Blocks,
    from: int,
    to: int,
    u: Unit,
    read: spec_fn(Seq<u8>) -> EventView,
    evs: Seq<EventView>,
) -> (ranges: Seq<(usize, usize)>)
    requires
        unit_read(bytes, blocks, from, to, u, read, evs),
    ensures
        owns(bytes, blocks, from, to, ranges),
        unit_gives(bytes, ranges, to, u),
        evs == unit_reads(ranges, u, read),
{
    reveal(owns);
    choose|ranges: Seq<(usize, usize)>| #[trigger]
        owned_elements(bytes, blocks, from, to, ranges) && unit_gives(bytes, ranges, to, u) && evs
            == unit_reads(ranges, u, read)
}

proof fn lemma_joined_reads(
    bytes: Seq<u8>,
    units: Seq<(usize, usize)>,
    parts: Seq<Seq<(usize, usize)>>,
    r: Seq<Unit>,
    read: spec_fn(Seq<u8>) -> EventView,
    evs: Seq<Seq<EventView>>,
    elements: Seq<(usize, usize)>,
)
    requires
        bytes.len() <= usize::MAX,
        parts.len() == r.len(),
        units.len() == r.len(),
        evs.len() == r.len(),
        joined(parts).len() <= elements.len(),
        joined(parts) == elements.take(joined(parts).len() as int),
        tidy(bytes, elements),
        separated(bytes, elements),
        tokens_agree(bytes, elements, read),
        forall|i: int|
            0 <= i < r.len() ==> unit_gives(bytes, #[trigger] parts[i], units[i].1 as int, r[i])
                && evs[i] == unit_reads(parts[i], r[i], read),
    ensures
        joined(evs) == element_reads(bytes, joined(parts), read),
    decreases r.len(),
{
    if r.len() == 0 {
        assert(joined(evs) =~= element_reads(bytes, joined(parts), read));
    } else {
        let n = r.len() - 1;
        let p = parts[n];
        let before = joined(parts.drop_last());
        let k = before.len() as int;
        let m = joined(parts).len() as int;
        assert(joined(parts) == before + p);
        assert(before =~= elements.take(k)) by {
            assert(before =~= (before + p).take(k));
        }
        assert(p =~= elements.subrange(k, m)) by {
            assert(p =~= (before + p).subrange(k, m));
        }
        assert forall|i: int| 0 <= i < n implies unit_gives(
            bytes,
            #[trigger] parts.drop_last()[i],
            units.drop_last()[i].1 as int,
            r.drop_last()[i],
        ) && evs.drop_last()[i] == unit_reads(parts.drop_last()[i], r.drop_last()[i], read) by {
            let x = parts[i];
        }
        lemma_joined_reads(
            bytes,
            units.drop_last(),
            parts.drop_last(),
            r.drop_last(),
            read,
            evs.drop_last(),
            elements,
        );
        lemma_part(bytes, elements, read, k, m);
        assert(unit_gives(bytes, p, units[n].1 as int, r[n]));
        lemma_unit_reads(bytes, p, units[n].1 as int, r[n], read);
        assert(joined(evs) == joined(evs.drop_last()) + evs[n]);
        lemma_reads_join(bytes, before, p, read);
    }
}

} // verus!
