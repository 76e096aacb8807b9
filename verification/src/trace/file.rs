//! Trace files: names, compression, recognition of the layout, metadata.

use vstd::prelude::*;
use vstd::string::StringExecFns;
use vstd::string::StringSliceAdditionalSpecFns;
use vstd::utf8::encode_utf8;
use crate::bytes::occurs_at;
use crate::json::{get_opt, items_opt, json_views, member_opt, str_opt, Json, JsonView};
use crate::text::{
    chars_of,
    ends_with,
    file_stem_of,
    has_suffix,
    last_dot,
    lemma_less_irreflexive,
    lemma_less_total,
    lemma_less_transitive,
    less,
    same,
    string_of,
    text_less,
    without_suffix,
};
use crate::trace::event::{EventView, opt_chars, TraceEvent};
use crate::trace::token::event_views;
use crate::trace::scan::{blocks_of, layout_of, no_layout, scan_layout, Blocks, Layout};

verus! {

/// Metadata of a trace. Numbers are kept as their decimal text.
pub struct TraceMetadata {
    pub cpu_throttling: Option<String>,
    pub source: Option<String>,
    pub start_time: Option<String>,
    pub network_throttling: Option<String>,
    pub hardware_concurrency: Option<u32>,
    pub host_dpr: Option<String>,
    /// Taken from the events, not from the metadata object.
    pub page_url: Option<String>,
}

/// A parsed trace file.
pub struct TraceFile {
    pub trace_events: Vec<TraceEvent>,
    pub metadata: Option<TraceMetadata>,
}

/// Position of the last dot of `c`.
fn find_last_dot(c: &Vec<char>) -> (r: Option<usize>)
    ensures
        match r {
            Some(i) => last_dot(c@) == i && i < c@.len(),
            None => last_dot(c@) == -1,
        },
{
    let mut i: usize = c.len();
    assert(c@.take(c@.len() as int) =~= c@);
    while i > 0
        invariant
            i <= c@.len(),
            last_dot(c@) == last_dot(c@.take(i as int)),
        decreases i,
    {
        assert(c@.take(i as int).drop_last() =~= c@.take(i - 1));
        if c[i - 1] == '.' {
            return Some(i - 1);
        }
        i = i - 1;
    }
    None
}

/// The stem of a trace file's name.
pub open spec fn stem_of(name: Seq<char>) -> Seq<char> {
    without_suffix(file_stem_of(name), ".json"@)
}

/// Stable stem for a trace file, given its name: strips both `.json` and
/// `.json.gz`.
pub fn trace_stem(name: &str) -> (r: String)
    ensures
        r@ == stem_of(name@),
{
    let c = chars_of(name);
    let end: usize = match find_last_dot(&c) {
        Some(i) => if i > 0 {
            i
        } else {
            c.len()
        },
        None => c.len(),
    };
    let stem = string_of(&c, 0, end);
    assert(stem@ =~= file_stem_of(name@));
    let s = chars_of(stem.as_str());
    proof {
        reveal_strlit(".json");
    }
    if ends_with(stem.as_str(), ".json") {
        let r = string_of(&s, 0, s.len() - 5);
        assert(r@ =~= without_suffix(stem@, ".json"@));
        r
    } else {
        stem
    }
}

/// The name's extension is `gz`.
pub open spec fn gz_name(name: Seq<char>) -> bool {
    last_dot(name) > 0 && name.skip(last_dot(name) + 1) == "gz"@
}

/// Whether a file of this name is decompressed before it is parsed.
pub fn is_gz(name: &str) -> (r: bool)
    ensures
        r == gz_name(name@),
{
    let c = chars_of(name);
    match find_last_dot(&c) {
        Some(i) => {
            if i == 0 {
                return false;
            }
            let n = c.len();
            let ext = string_of(&c, i + 1, n);
            assert(ext@ =~= name@.skip(i + 1));
            same(ext.as_str(), "gz")
        },
        None => false,
    }
}

/// What `flate2` decompresses a gzip stream to; `None` where it reports an
/// error.
pub uninterp spec fn gunzipped(data: Seq<u8>) -> Option<Seq<u8>>;

/// `read_to_end` on a `flate2::read::GzDecoder` over the bytes: what it gives,
/// or whether it fails, depends on the bytes alone. The text of the error is
/// left open.
#[verifier::external_body]
fn gunzip(data: &[u8]) -> (r: Result<Vec<u8>, String>)
    ensures
        match r {
            Ok(v) => gunzipped(data@) == Some(v@),
            Err(_) => gunzipped(data@) is None,
        },
{
    let mut out = Vec::new();
    match std::io::Read::read_to_end(&mut flate2::read::GzDecoder::new(data), &mut out) {
        Ok(_) => Ok(out),
        Err(e) => Err(e.to_string()),
    }
}

/// The text of a trace file: its content, decompressed where the name says so.
pub fn file_text(name: &str, raw: Vec<u8>) -> (r: Result<Vec<u8>, String>)
    ensures
        match r {
            Ok(v) => if gz_name(name@) {
                gunzipped(raw@) == Some(v@)
            } else {
                v@ == raw@
            },
            Err(_) => gz_name(name@) && gunzipped(raw@) is None,
        },
{
    if is_gz(name) {
        gunzip(raw.as_slice())
    } else {
        Ok(raw)
    }
}

/// A directory entry that is a trace file.
pub open spec fn is_trace_name(name: Seq<char>) -> bool {
    has_suffix(name, ".json.gz"@) || has_suffix(name, ".json"@)
}

/// The file kept for a stem among the first entries of a directory: the first
/// compressed one, else the last plain one.
pub open spec fn kept(names: Seq<String>, stem: Seq<char>) -> Option<Seq<char>>
    decreases names.len(),
{
    if names.len() == 0 {
        None
    } else {
        let before = kept(names.drop_last(), stem);
        let name = names.last()@;
        if is_trace_name(name) && stem_of(name) == stem && !(before matches Some(b) && gz_name(b)) {
            Some(name)
        } else {
            before
        }
    }
}

/// `picked` holds the file kept for each stem, in the order of the stems.
pub open spec fn picks(names: Seq<String>, picked: Seq<(String, String)>) -> bool {
    &&& forall|i: int|
        0 <= i < picked.len() ==> kept(names, (#[trigger] picked[i]).0@) == Some(picked[i].1@)
    &&& forall|i: int, j: int|
        0 <= i < j < picked.len() ==> text_less((#[trigger] picked[i]).0@, (#[trigger] picked[j]).0@)
    &&& forall|stem: Seq<char>|
        #[trigger] kept(names, stem) is Some ==> exists|i: int|
            0 <= i < picked.len() && (#[trigger] picked[i]).0@ == stem
}

/// The trace files among a directory's entries, given by name: for each stem
/// one, the compressed one where there is one, sorted by stem.
pub fn list_traces(names: &Vec<String>) -> (r: Vec<(String, String)>)
    ensures
        picks(names@, r@),
{
    let n = names.len();
    let mut picked: Vec<(String, String)> = Vec::new();
    let mut k: usize = 0;
    while k < n
        invariant
            n == names@.len(),
            k <= n,
            picks(names@.take(k as int), picked@),
        decreases n - k,
    {
        let ghost seen = names@.take(k as int);
        let ghost more = names@.take(k + 1);
        let name = names[k].as_str();
        proof {
            assert(more.drop_last() =~= seen);
            assert(more.last()@ == name@);
        }
        if ends_with(name, ".json.gz") || ends_with(name, ".json") {
            let stem = trace_stem(name);
            let mut i: usize = 0;
            while i < picked.len() && less(picked[i].0.as_str(), stem.as_str())
                invariant
                    i <= picked@.len(),
                    forall|j: int| 0 <= j < i ==> text_less((#[trigger] picked@[j]).0@, stem@),
                decreases picked@.len() - i,
            {
                i = i + 1;
            }
            let ghost old_picked = picked@;
            if i < picked.len() && same(picked[i].0.as_str(), stem.as_str()) {
                let keep = is_gz(picked[i].1.as_str());
                if !keep {
                    picked.set(i, (stem, name.to_owned()));
                }
                proof {
                    lemma_picked_same(seen, more, old_picked, picked@, i as int);
                }
            } else {
                let ghost st = stem@;
                picked.insert(i, (stem, name.to_owned()));
                proof {
                    lemma_picked_new(seen, more, old_picked, picked@, i as int, st);
                }
            }
        } else {
            proof {
                assert forall|s: Seq<char>| #[trigger] kept(more, s) == kept(seen, s) by {}
            }
        }
        k = k + 1;
    }
    assert(names@.take(n as int) =~= names@);
    picked
}

proof fn lemma_picked_same(
    seen: Seq<String>,
    more: Seq<String>,
    before: Seq<(String, String)>,
    after: Seq<(String, String)>,
    i: int,
)
    requires
        picks(seen, before),
        more.len() > 0,
        more.drop_last() == seen,
        is_trace_name(more.last()@),
        0 <= i < before.len(),
        before[i].0@ == stem_of(more.last()@),
        after.len() == before.len(),
        forall|j: int| 0 <= j < before.len() && j != i ==> after[j] == before[j],
        after[i].0@ == before[i].0@,
        after[i].1@ == if gz_name(before[i].1@) {
            before[i].1@
        } else {
            more.last()@
        },
    ensures
        picks(more, after),
{
    let stem = before[i].0@;
    assert(kept(seen, stem) == Some(before[i].1@));
    assert forall|j: int| 0 <= j < after.len() implies kept(more, (#[trigger] after[j]).0@) == Some(
        after[j].1@,
    ) by {
        if j != i {
            assert(kept(seen, before[j].0@) == Some(before[j].1@));
            if before[j].0@ == stem {
                lemma_less_irreflexive(stem);
                assert(before[i].0@ == before[j].0@);
            }
        }
    }
    assert forall|a: int, b: int| 0 <= a < b < after.len() implies text_less(
        (#[trigger] after[a]).0@,
        (#[trigger] after[b]).0@,
    ) by {
        assert(text_less(before[a].0@, before[b].0@));
    }
    assert forall|s: Seq<char>| #[trigger] kept(more, s) is Some implies exists|j: int|
        0 <= j < after.len() && (#[trigger] after[j]).0@ == s by {
        if s == stem {
            assert(after[i].0@ == s);
        } else {
            assert(kept(seen, s) is Some);
            let j = choose|j: int| 0 <= j < before.len() && (#[trigger] before[j]).0@ == s;
            assert(after[j].0@ == s);
        }
    }
}

proof fn lemma_picked_new(
    seen: Seq<String>,
    more: Seq<String>,
    before: Seq<(String, String)>,
    after: Seq<(String, String)>,
    i: int,
    stem: Seq<char>,
)
    requires
        picks(seen, before),
        more.len() > 0,
        more.drop_last() == seen,
        is_trace_name(more.last()@),
        stem == stem_of(more.last()@),
        0 <= i <= before.len(),
        forall|j: int| 0 <= j < i ==> text_less((#[trigger] before[j]).0@, stem),
        i < before.len() ==> !text_less(before[i].0@, stem) && before[i].0@ != stem,
        after.len() == before.len() + 1,
        after[i].0@ == stem,
        after[i].1@ == more.last()@,
        forall|j: int| 0 <= j < i ==> after[j] == before[j],
        forall|j: int| i < j < after.len() ==> after[j] == before[j - 1],
    ensures
        picks(more, after),
{
    assert forall|j: int| i <= j < before.len() implies text_less(stem, (#[trigger] before[j]).0@) by {
        lemma_less_total(before[i].0@, stem);
        if j > i {
            assert(text_less(before[i].0@, before[j].0@));
            lemma_less_transitive(stem, before[i].0@, before[j].0@);
        }
    }
    assert(kept(seen, stem) is None) by {
        if kept(seen, stem) is Some {
            let j = choose|j: int| 0 <= j < before.len() && (#[trigger] before[j]).0@ == stem;
            lemma_less_irreflexive(stem);
            assert(before[j].0@ == stem);
        }
    }
    assert forall|j: int| 0 <= j < after.len() implies kept(more, (#[trigger] after[j]).0@) == Some(
        after[j].1@,
    ) by {
        lemma_less_irreflexive(stem);
        if j < i {
            assert(kept(seen, before[j].0@) == Some(before[j].1@));
            assert(text_less(before[j].0@, stem));
        } else if j > i {
            assert(kept(seen, before[j - 1].0@) == Some(before[j - 1].1@));
            assert(text_less(stem, before[j - 1].0@));
        }
    }
    assert forall|a: int, b: int| 0 <= a < b < after.len() implies text_less(
        (#[trigger] after[a]).0@,
        (#[trigger] after[b]).0@,
    ) by {
        let x = if a < i {
            a
        } else {
            a - 1
        };
        let y = if b < i {
            b
        } else {
            b - 1
        };
        if a == i {
            assert(text_less(stem, before[y].0@));
        } else if b == i {
            assert(text_less(before[x].0@, stem));
        } else {
            assert(text_less(before[x].0@, before[y].0@));
        }
    }
    assert forall|s: Seq<char>| #[trigger] kept(more, s) is Some implies exists|j: int|
        0 <= j < after.len() && (#[trigger] after[j]).0@ == s by {
        if s == stem {
            assert(after[i].0@ == s);
        } else {
            assert(kept(seen, s) is Some);
            let j = choose|j: int| 0 <= j < before.len() && (#[trigger] before[j]).0@ == s;
            if j < i {
                assert(after[j].0@ == s);
            } else {
                assert(after[j + 1].0@ == s);
            }
        }
    }
}

/// How a buffer is parsed.
pub enum Recognized {
    /// By the located array, in units.
    Array(Layout, Blocks),
    /// As a whole.
    Whole,
    /// Not at all: it is no trace.
    NotTrace,
}

/// Decide how to parse a buffer: by its layout where that is recognized, as a
/// whole where it at least names the array.
pub fn recognize(bytes: &[u8]) -> (r: Recognized)
    requires
        bytes@.len() <= i64::MAX,
    ensures
        match r {
            Recognized::Array(layout, blocks) => blocks_of(bytes@, blocks) && layout_of(
                bytes@,
                blocks,
                layout,
            ),
            Recognized::Whole => {
                &&& exists|blocks: Blocks| #[trigger]
                    blocks_of(bytes@, blocks) && no_layout(bytes@, blocks)
                &&& exists|i: int| occurs_at(bytes@, encode_utf8("traceEvents"@), i)
            },
            Recognized::NotTrace => {
                &&& exists|blocks: Blocks| #[trigger]
                    blocks_of(bytes@, blocks) && no_layout(bytes@, blocks)
                &&& forall|i: int| !occurs_at(bytes@, encode_utf8("traceEvents"@), i)
            },
        },
{
    match scan_layout(bytes) {
        Some((layout, blocks)) => Recognized::Array(layout, blocks),
        None => match memchr::memmem::find(bytes, "traceEvents".as_bytes()) {
            Some(_) => Recognized::Whole,
            None => Recognized::NotTrace,
        },
    }
}

/// The message for a file that is no trace.
pub fn not_a_trace(path: &str) -> (r: String)
    ensures
        r@ == path@ + ": not a Chrome trace (missing top-level \"traceEvents\" array)"@,
{
    let mut s = path.to_owned();
    s.append(": not a Chrome trace (missing top-level \"traceEvents\" array)");
    s
}

/// A page address: neither empty nor that of a blank page.
pub open spec fn real_url(j: JsonView) -> Option<Seq<char>> {
    match str_opt(member_opt(Some(j), "url"@)) {
        Some(u) => if u.len() > 0 && u != "about:blank"@ {
            Some(u)
        } else {
            None
        },
        None => None,
    }
}

/// The first page address among frames.
pub open spec fn first_url(frames: Seq<JsonView>) -> Option<Seq<char>>
    decreases frames.len(),
{
    if frames.len() == 0 {
        None
    } else if real_url(frames[0]) is Some {
        real_url(frames[0])
    } else {
        first_url(frames.drop_first())
    }
}

/// The page address of a trace: that of the first frame with one, in the first
/// event that tells of the start of tracing.
pub open spec fn url_of(events: Seq<EventView>) -> Option<Seq<char>>
    decreases events.len(),
{
    if events.len() == 0 {
        None
    } else if events[0].name == "TracingStartedInBrowser"@ {
        match items_opt(member_opt(member_opt(events[0].said(), "data"@), "frames"@)) {
            Some(frames) => first_url(frames),
            None => None,
        }
    } else {
        url_of(events.drop_first())
    }
}

fn url_in_frames(frames: &Vec<Json>) -> (r: Option<String>)
    ensures
        opt_chars(r) == first_url(json_views(frames@)),
{
    let ghost all = json_views(frames@);
    let mut i: usize = 0;
    assert(all.skip(0) =~= all);
    while i < frames.len()
        invariant
            i <= frames@.len(),
            all == json_views(frames@),
            first_url(all) == first_url(all.skip(i as int)),
        decreases frames@.len() - i,
    {
        assert(all.skip(i as int).drop_first() =~= all.skip(i + 1));
        assert(all.skip(i as int)[0] == frames@[i as int]@);
        if let Some(u) = frames[i].get("url") {
            if let Some(s) = u.as_str() {
                if !s.is_empty() && !same(s, "about:blank") {
                    return Some(s.to_owned());
                }
            }
        }
        i = i + 1;
    }
    None
}

/// The page address of a trace.
pub fn page_url(events: &[TraceEvent]) -> (r: Option<String>)
    ensures
        opt_chars(r) == url_of(event_views(events@)),
{
    let ghost all = event_views(events@);
    let mut i: usize = 0;
    assert(all.skip(0) =~= all);
    while i < events.len()
        invariant
            i <= events@.len(),
            all == event_views(events@),
            url_of(all) == url_of(all.skip(i as int)),
        decreases events@.len() - i,
    {
        assert(all.skip(i as int).drop_first() =~= all.skip(i + 1));
        assert(all.skip(i as int)[0] == events@[i as int]@);
        let e = &events[i];
        if same(e.name.as_str(), "TracingStartedInBrowser") {
            let value = e.args_value();
            let frames = get_opt(get_opt(value, "data"), "frames");
            return match frames {
                Some(f) => match f.as_array() {
                    Some(a) => url_in_frames(a),
                    None => None,
                },
                None => None,
            };
        }
        i = i + 1;
    }
    None
}

/// A trace with its metadata completed: the page address is taken from the
/// events where the metadata does not give one.
pub fn complete(trace_events: Vec<TraceEvent>, metadata: Option<TraceMetadata>) -> (r: TraceFile)
    ensures
        r.trace_events@ == trace_events@,
        match r.metadata {
            Some(m) => {
                &&& opt_chars(m.page_url) == match metadata {
                    Some(o) if o.page_url is Some => opt_chars(o.page_url),
                    _ => url_of(event_views(trace_events@)),
                }
                &&& match metadata {
                    Some(o) => (TraceMetadata { page_url: o.page_url, ..m }) == o,
                    None => m.cpu_throttling is None && m.source is None && m.start_time is None
                        && m.network_throttling is None && m.hardware_concurrency is None
                        && m.host_dpr is None,
                }
            },
            None => false,
        },
{
    let mut meta = match metadata {
        Some(m) => m,
        None => TraceMetadata {
            cpu_throttling: None,
            source: None,
            start_time: None,
            network_throttling: None,
            hardware_concurrency: None,
            host_dpr: None,
            page_url: None,
        },
    };
    if meta.page_url.is_none() {
        meta.page_url = page_url(trace_events.as_slice());
    }
    TraceFile { trace_events, metadata: Some(meta) }
}

} // verus!
