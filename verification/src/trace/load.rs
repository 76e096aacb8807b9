//! Loading a trace: the units of its event array, and what they give together.

use vstd::prelude::*;
use vstd::string::StringExecFns;
use vstd::utf8::encode_utf8;
use crate::bytes::{occurs_at, SPACE};
use crate::trace::chunk::{
    chunk_work,
    commas_after,
    cut,
    lemma_commas,
    lemma_restore_blanked,
    outcome_of,
    owned_elements,
    plan_units,
    restore_commas,
    written,
    ChunkOutcome,
    UNIT_MAX,
};
use crate::trace::event::TraceEvent;
use crate::trace::file::{file_text, gunzipped, gz_name, not_a_trace, recognize, Recognized};
use crate::trace::scan::{blocks_of, layout_of, no_layout, Blocks, Layout};
use crate::trace::token::{event_views, events_between};

verus! {

/// What a unit of the array gives: its events, or text that is left to a full
/// parser, a stream of values without commas between them.
pub enum Unit {
    Events(Vec<TraceEvent>),
    Slice(Vec<u8>),
}

/// What the unit with the elements `ranges` gives.
pub open spec fn unit_gives(bytes: Seq<u8>, ranges: Seq<(usize, usize)>, to: int, u: Unit) -> bool {
    if ranges.len() == 0 {
        u matches Unit::Events(v) && v@.len() == 0
    } else {
        let s = ranges[0].0 as int;
        let e = ranges.last().1 as int;
        match events_between(bytes, s, e) {
            Some(views) => u matches Unit::Events(v) && event_views(v@) == views,
            None => u matches Unit::Slice(t) && t@ == written(
                bytes,
                commas_after(bytes, ranges, to),
                SPACE,
            ).subrange(s, e),
        }
    }
}

/// What the unit of `[from, to)` gives.
pub open spec fn unit_of(bytes: Seq<u8>, blocks: Blocks, from: int, to: int, u: Unit) -> bool {
    exists|ranges: Seq<(usize, usize)>| #[trigger]
        owned_elements(bytes, blocks, from, to, ranges) && unit_gives(bytes, ranges, to, u)
}

/// The array is cut into units, and these give `r`.
pub open spec fn units_of(
    bytes: Seq<u8>,
    blocks: Blocks,
    units: Seq<(usize, usize)>,
    r: Seq<Unit>,
) -> bool {
    &&& r.len() == units.len()
    &&& forall|i: int|
        0 <= i < r.len() ==> unit_of(
            bytes,
            blocks,
            units[i].0 as int,
            units[i].1 as int,
            #[trigger] r[i],
        )
}

/// The array in `[from, to)` is cut into units somehow, and these give `r`.
pub open spec fn parallel_of(
    bytes: Seq<u8>,
    blocks: Blocks,
    from: int,
    to: int,
    r: Seq<Unit>,
) -> bool {
    exists|units: Seq<(usize, usize)>| #[trigger]
        cut(units, from, to) && units_of(bytes, blocks, units, r)
}

fn copy_range(bytes: &Vec<u8>, start: usize, end: usize) -> (r: Vec<u8>)
    requires
        start <= end <= bytes@.len(),
    ensures
        r@ == bytes@.subrange(start as int, end as int),
{
    let mut r: Vec<u8> = Vec::new();
    let mut i: usize = start;
    while i < end
        invariant
            start <= i <= end <= bytes@.len(),
            r@ == bytes@.subrange(start as int, i as int),
        decreases end - i,
    {
        r.push(bytes[i]);
        assert(r@ =~= bytes@.subrange(start as int, i + 1));
        i = i + 1;
    }
    r
}

/// Work on one unit, and leave the bytes as they were.
fn parse_unit(bytes: &mut Vec<u8>, blocks: &Blocks, from: usize, to: usize) -> (u: Unit)
    requires
        old(bytes)@.len() <= i64::MAX,
        blocks_of(old(bytes)@, *blocks),
        from < old(bytes)@.len(),
    ensures
        final(bytes)@ == old(bytes)@,
        unit_of(old(bytes)@, *blocks, from as int, to as int, u),
{
    let ghost before = bytes@;
    let n = bytes.len();
    let r = chunk_work(bytes, blocks, from, to);
    let ghost ranges = choose|ranges: Seq<(usize, usize)>| #[trigger]
        owned_elements(before, *blocks, from as int, to as int, ranges) && outcome_of(
            before,
            ranges,
            to as int,
            r,
            bytes@,
        );
    match r {
        ChunkOutcome::Parsed(events) => {
            let u = Unit::Events(events);
            assert(unit_gives(before, ranges, to as int, u));
            u
        },
        ChunkOutcome::Blanked { start, end, commas } => {
            proof {
                let k = ranges.len() - 1;
                assert(ranges[0].0 < ranges[0].1 && ranges[k].1 <= before.len());
                if k > 0 {
                    assert(ranges[0].1 <= ranges[k].0);
                }
                assert(ranges[k].0 < ranges[k].1);
                lemma_commas(before, ranges, to as int);
                lemma_restore_blanked(before, ranges, to as int);
            }
            let text = copy_range(bytes, start, end);
            restore_commas(bytes, &commas);
            let u = Unit::Slice(text);
            assert(unit_gives(before, ranges, to as int, u));
            u
        },
    }
}

/// Parse the array in units, as many as `threads` workers would share. Each
/// unit depends on the bytes alone, which stay as they were.
pub fn parse_parallel(bytes: &mut Vec<u8>, layout: &Layout, blocks: &Blocks, threads: usize) -> (r: Vec<
    Unit,
>)
    requires
        old(bytes)@.len() <= i64::MAX,
        blocks_of(old(bytes)@, *blocks),
        layout.arr_open < layout.arr_close < old(bytes)@.len(),
        layout.arr_close + UNIT_MAX <= usize::MAX,
        threads * 8 <= usize::MAX,
    ensures
        final(bytes)@ == old(bytes)@,
        parallel_of(
            old(bytes)@,
            *blocks,
            layout.arr_open as int,
            layout.arr_close as int,
            r@,
        ),
{
    let ghost before = bytes@;
    let units = plan_units(layout.arr_open, layout.arr_close, threads);
    let mut r: Vec<Unit> = Vec::new();
    let mut i: usize = 0;
    while i < units.len()
        invariant
            i <= units@.len(),
            bytes@ == before,
            before.len() <= i64::MAX,
            blocks_of(before, *blocks),
            layout.arr_close < before.len(),
            cut(units@, layout.arr_open as int, layout.arr_close as int),
            r@.len() == i,
            forall|k: int|
                0 <= k < i ==> unit_of(
                    before,
                    *blocks,
                    units@[k].0 as int,
                    units@[k].1 as int,
                    #[trigger] r@[k],
                ),
        decreases units@.len() - i,
    {
        let (from, to) = units[i];
        proof {
            lemma_cut_within(units@, layout.arr_open as int, layout.arr_close as int, i as int);
        }
        r.push(parse_unit(bytes, blocks, from, to));
        i = i + 1;
    }
    assert(units_of(before, *blocks, units@, r@));
    r
}

proof fn lemma_cut_within(units: Seq<(usize, usize)>, from: int, to: int, i: int)
    requires
        cut(units, from, to),
        0 <= i < units.len(),
    ensures
        units[i].0 <= units[i].1 <= to,
    decreases units.len() - i,
{
    if i < units.len() - 1 {
        lemma_cut_within(units, from, to, i + 1);
        assert(units[i].1 == units[i + 1].0);
    }
}

/// All units gave events.
pub open spec fn all_events(units: Seq<Unit>) -> bool {
    forall|i: int| 0 <= i < units.len() ==> (#[trigger] units[i]) is Events
}

pub open spec fn unit_events(u: Unit) -> Seq<TraceEvent> {
    match u {
        Unit::Events(v) => v@,
        Unit::Slice(_) => Seq::empty(),
    }
}

/// The events of the units, one behind the other.
pub open spec fn units_events(units: Seq<Unit>) -> Seq<TraceEvent>
    decreases units.len(),
{
    if units.len() == 0 {
        Seq::empty()
    } else {
        units_events(units.drop_last()) + unit_events(units.last())
    }
}

/// The events of the units, where all gave events.
pub fn take_events(units: Vec<Unit>) -> (r: Option<Vec<TraceEvent>>)
    ensures
        match r {
            Some(v) => all_events(units@) && v@ == units_events(units@),
            None => !all_events(units@),
        },
{
    let ghost all = units@;
    let mut out: Vec<TraceEvent> = Vec::new();
    assert(all.take(0) =~= Seq::<Unit>::empty());
    for u in it: units
        invariant
            it.seq() == all,
            out@ == units_events(all.take(it.index())),
            forall|i: int| 0 <= i < it.index() ==> (#[trigger] all[i]) is Events,
    {
        assert(all.take(it.index() + 1).drop_last() =~= all.take(it.index()));
        assert(all[it.index()] == u);
        match u {
            Unit::Events(v) => {
                let mut p = v;
                out.append(&mut p);
            },
            Unit::Slice(_) => {
                return None;
            },
        }
    }
    assert(all.take(all.len() as int) =~= all);
    Some(out)
}

/// The position of the first unit that failed.
pub open spec fn first_failed(r: Seq<Result<Vec<TraceEvent>, String>>, i: int) -> bool {
    &&& 0 <= i < r.len()
    &&& r[i] is Err
    &&& forall|j: int| 0 <= j < i ==> (#[trigger] r[j]) is Ok
}

pub open spec fn result_events(r: Result<Vec<TraceEvent>, String>) -> Seq<TraceEvent> {
    match r {
        Ok(v) => v@,
        Err(_) => Seq::empty(),
    }
}

pub open spec fn results_events(r: Seq<Result<Vec<TraceEvent>, String>>) -> Seq<TraceEvent>
    decreases r.len(),
{
    if r.len() == 0 {
        Seq::empty()
    } else {
        results_events(r.drop_last()) + result_events(r.last())
    }
}

/// Join what the units gave, those that a full parser had to read among them:
/// all events in file order, or the failure of the first unit that failed.
pub fn merge_units(results: Vec<Result<Vec<TraceEvent>, String>>) -> (r: Result<
    Vec<TraceEvent>,
    String,
>)
    ensures
        match r {
            Ok(v) => v@ == results_events(results@) && forall|i: int|
                0 <= i < results@.len() ==> (#[trigger] results@[i]) is Ok,
            Err(m) => exists|i: int| #[trigger]
                first_failed(results@, i) && m@ == "chunk parse failed: "@ + results@[i]->Err_0@,
        },
{
    let ghost all = results@;
    let mut out: Vec<TraceEvent> = Vec::new();
    assert(all.take(0) =~= Seq::<Result<Vec<TraceEvent>, String>>::empty());
    for x in it: results
        invariant
            it.seq() == all,
            out@ == results_events(all.take(it.index())),
            forall|i: int| 0 <= i < it.index() ==> (#[trigger] all[i]) is Ok,
    {
        assert(all.take(it.index() + 1).drop_last() =~= all.take(it.index()));
        assert(all[it.index()] == x);
        match x {
            Ok(v) => {
                let mut p = v;
                out.append(&mut p);
            },
            Err(e) => {
                let mut m = String::new();
                m.append("chunk parse failed: ");
                m.append(e.as_str());
                assert(m@ =~= "chunk parse failed: "@ + e@);
                assert(first_failed(all, it.index()));
                return Err(m);
            },
        }
    }
    assert(all.take(all.len() as int) =~= all);
    Ok(out)
}

/// A trace on the way to its events: the text of the file, and what the units
/// of the array gave where its layout was recognized.
pub struct Opened {
    pub bytes: Vec<u8>,
    /// Missing where the text is to be parsed as a whole.
    pub units: Option<Vec<Unit>>,
    /// Where the metadata object stands.
    pub metadata: Option<(usize, usize)>,
}

/// The text of the file: decompressed where its name says so.
pub open spec fn text_of(name: Seq<char>, raw: Seq<u8>) -> Option<Seq<u8>> {
    if gz_name(name) {
        gunzipped(raw)
    } else {
        Some(raw)
    }
}

/// The text is small enough to be cut into units.
pub open spec fn text_fits(bytes: Seq<u8>) -> bool {
    bytes.len() <= i64::MAX && bytes.len() + UNIT_MAX <= usize::MAX
}

/// What is made of the text of a file.
pub open spec fn opened_of(text: Seq<u8>, o: Opened) -> bool {
    &&& o.bytes@ == text
    &&& match o.units {
        Some(r) => exists|blocks: Blocks, layout: Layout|
            {
                &&& blocks_of(text, blocks)
                &&& #[trigger] layout_of(text, blocks, layout)
                &&& parallel_of(
                    text,
                    blocks,
                    layout.arr_open as int,
                    layout.arr_close as int,
                    r@,
                )
                &&& o.metadata == layout.metadata
            },
        None => {
            &&& o.metadata is None
            &&& text_fits(text) ==> names_array(text) && unrecognized(text)
        },
    }
}

/// The text has no layout by which it could be parsed in units.
pub open spec fn unrecognized(text: Seq<u8>) -> bool {
    exists|blocks: Blocks| #[trigger] blocks_of(text, blocks) && no_layout(text, blocks)
}

/// The text names the array somewhere.
pub open spec fn names_array(text: Seq<u8>) -> bool {
    exists|i: int| occurs_at(text, encode_utf8("traceEvents"@), i)
}

/// Why a file cannot be opened.
pub enum OpenError {
    /// It cannot be decompressed.
    Unreadable(String),
    /// It is no trace.
    NotTrace(String),
}

impl OpenError {
    /// What the error reads.
    pub fn message(&self) -> (r: String)
        ensures
            r@ == (match *self {
                OpenError::Unreadable(m) => m@,
                OpenError::NotTrace(m) => m@,
            }),
    {
        match self {
            OpenError::Unreadable(m) => m.clone(),
            OpenError::NotTrace(m) => m.clone(),
        }
    }
}

/// Open a trace, given the name and the content of its file: decompress it,
/// find the array of events, and parse that in units. A text that has no such
/// layout is left to be parsed as a whole; one that does not even name the
/// array is no trace.
pub fn parse_trace(path: &str, name: &str, raw: Vec<u8>, threads: usize) -> (r: Result<Opened, OpenError>)
    requires
        threads * 8 <= usize::MAX,
    ensures
        match r {
            Ok(o) => text_of(name@, raw@) matches Some(text) && opened_of(text, o),
            Err(OpenError::Unreadable(_)) => text_of(name@, raw@) is None,
            Err(OpenError::NotTrace(m)) => {
                &&& text_of(name@, raw@) matches Some(text) && text_fits(text) && !names_array(text)
                    && unrecognized(text)
                &&& m@ == path@ + ": not a Chrome trace (missing top-level \"traceEvents\" array)"@
            },
        },
{
    let mut bytes = match file_text(name, raw) {
        Ok(b) => b,
        Err(e) => {
            return Err(OpenError::Unreadable(e));
        },
    };
    let ghost text = bytes@;
    let len = bytes.len();
    if len as u64 > i64::MAX as u64 || len > usize::MAX - UNIT_MAX {
        return Ok(Opened { bytes, units: None, metadata: None });
    }
    match recognize(bytes.as_slice()) {
        Recognized::Array(layout, blocks) => {
            let units = parse_parallel(&mut bytes, &layout, &blocks, threads);
            let o = Opened { bytes, units: Some(units), metadata: layout.metadata };
            assert(layout_of(text, blocks, layout));
            Ok(o)
        },
        Recognized::Whole => Ok(Opened { bytes, units: None, metadata: None }),
        Recognized::NotTrace => Err(OpenError::NotTrace(not_a_trace(path))),
    }
}

} // verus!
