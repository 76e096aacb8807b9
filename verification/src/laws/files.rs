//! Which files are listed as traces, whose page a trace is of, and by how much
//! the processor was slowed down.

use vstd::prelude::*;
use crate::json::{items_opt, member, member_opt, str_opt, text_ticks, JsonView};
use crate::report::factor_of;
use crate::text::{has_suffix, last_dot, stands_at, text_less};
use crate::trace::event::EventView;
use crate::trace::file::{
    first_url,
    gz_name,
    is_trace_name,
    kept,
    picks,
    real_url,
    stem_of,
    url_of,
    TraceMetadata,
};

verus! {

proof fn lemma_last_dot(s: Seq<char>, k: int)
    requires
        0 <= k < s.len(),
        s[k] == '.',
        forall|i: int| k < i < s.len() ==> s[i] != '.',
    ensures
        last_dot(s) == k,
    decreases s.len(),
{
    if k < s.len() - 1 {
        assert(s[s.len() - 1] != '.');
        lemma_last_dot(s.drop_last(), k);
    }
}

proof fn lemma_ends(s: Seq<char>, base: Seq<char>, end: Seq<char>)
    requires
        s == base + end,
    ensures
        has_suffix(s, end),
        s.take(s.len() - end.len()) == base,
{
    assert(s.take(s.len() - end.len()) =~= base);
    assert(s.subrange(base.len() as int, s.len() as int) =~= end);
    assert(stands_at(s, end, s.len() - end.len()));
}

/// What a compressed trace is called without its ending, and that it is
/// compressed.
pub proof fn lemma_compressed_name(base: Seq<char>)
    ensures
        is_trace_name(base + ".json.gz"@),
        gz_name(base + ".json.gz"@),
        stem_of(base + ".json.gz"@) == base,
{
    reveal_strlit(".json.gz");
    reveal_strlit(".json");
    reveal_strlit("gz");
    let name = base + ".json.gz"@;
    let n = base.len() as int;
    assert(".json.gz"@.len() == 8);
    assert(name[n + 5] == ".json.gz"@[5] && name[n + 6] == ".json.gz"@[6] && name[n + 7] == ".json.gz"@[7]);
    lemma_last_dot(name, n + 5);
    assert(name.skip(n + 6) =~= "gz"@);
    let stem = name.take(n + 5);
    assert(stem =~= base + ".json"@);
    lemma_ends(stem, base, ".json"@);
    lemma_ends(name, base, ".json.gz"@);
}

/// What a trace is called without its ending, and that it is not compressed.
pub proof fn lemma_plain_name(base: Seq<char>)
    requires
        !has_suffix(base, ".json"@),
    ensures
        is_trace_name(base + ".json"@),
        !gz_name(base + ".json"@),
        stem_of(base + ".json"@) == base,
{
    reveal_strlit(".json");
    reveal_strlit("gz");
    let name = base + ".json"@;
    let n = base.len() as int;
    assert(".json"@.len() == 5);
    assert(name[n] == '.');
    assert(name[n + 1] == ".json"@[1] && name[n + 2] == ".json"@[2] && name[n + 3] == ".json"@[3] && name[n + 4]
        == ".json"@[4]);
    lemma_last_dot(name, n);
    assert(name.skip(n + 1).len() == 4);
    assert("gz"@.len() == 2);
    lemma_ends(name, base, ".json"@);
    if n > 0 {
        assert(name.take(n) =~= base);
    } else {
        assert(name =~= ".json"@);
        assert(base =~= Seq::<char>::empty());
    }
}

/// A name of a trace: it ends in one of the two ways.
pub open spec fn is_trace(name: Seq<char>) -> bool {
    has_suffix(name, ".json"@) || has_suffix(name, ".json.gz"@)
}

proof fn lemma_kept(names: Seq<String>, stem: Seq<char>)
    ensures
        kept(names, stem) matches Some(name) ==> {
            &&& exists|i: int| 0 <= i < names.len() && (#[trigger] names[i])@ == name
            &&& is_trace(name)
            &&& stem_of(name) == stem
        },
        kept(names, stem) is None ==> forall|i: int|
            0 <= i < names.len() && is_trace((#[trigger] names[i])@) ==> stem_of(names[i]@) != stem,
        (exists|i: int|
            0 <= i < names.len() && is_trace((#[trigger] names[i])@) && stem_of(names[i]@) == stem && gz_name(
                names[i]@,
            )) ==> (kept(names, stem) matches Some(name) && gz_name(name)),
    decreases names.len(),
{
    if names.len() > 0 {
        let t = names.drop_last();
        let last = names.len() - 1;
        lemma_kept(t, stem);
        assert forall|i: int| 0 <= i < t.len() implies #[trigger] names[i] == t[i] by {}
        if let Some(name) = kept(names, stem) {
            if kept(t, stem) == Some(name) {
                let i = choose|i: int| 0 <= i < t.len() && (#[trigger] t[i])@ == name;
                assert(names[i]@ == name);
            } else {
                assert(names[last]@ == name);
            }
        }
        if exists|i: int|
            0 <= i < names.len() && is_trace((#[trigger] names[i])@) && stem_of(names[i]@) == stem && gz_name(
                names[i]@,
            ) {
            let i = choose|i: int|
                0 <= i < names.len() && is_trace((#[trigger] names[i])@) && stem_of(names[i]@) == stem && gz_name(
                    names[i]@,
                );
            if i < last {
                assert(t[i] == names[i]);
            }
        }
    }
}

/// The list of traces: each is a file of the directory that ends as a trace
/// does, under its name without the ending; every such file's name is listed
/// once, in ascending order; and where one of them is compressed, the listed one
/// is.
pub proof fn lemma_traces(names: Seq<String>, listed: Seq<(String, String)>)
    requires
        picks(names, listed),
    ensures
        forall|k: int|
            0 <= k < listed.len() ==> is_trace((#[trigger] listed[k]).1@) && stem_of(listed[k].1@) == listed[k].0@
                && exists|i: int| 0 <= i < names.len() && (#[trigger] names[i])@ == listed[k].1@,
        forall|i: int|
            0 <= i < names.len() && is_trace((#[trigger] names[i])@) ==> exists|k: int|
                0 <= k < listed.len() && (#[trigger] listed[k]).0@ == stem_of(names[i]@) && (gz_name(names[i]@)
                    ==> gz_name(listed[k].1@)),
        forall|i: int, j: int|
            0 <= i < j < listed.len() ==> text_less((#[trigger] listed[i]).0@, (#[trigger] listed[j]).0@),
{
    assert forall|k: int| 0 <= k < listed.len() implies is_trace((#[trigger] listed[k]).1@) && stem_of(listed[k].1@)
        == listed[k].0@ && exists|i: int| 0 <= i < names.len() && (#[trigger] names[i])@ == listed[k].1@ by {
        lemma_kept(names, listed[k].0@);
    }
    assert forall|i: int| 0 <= i < names.len() && is_trace((#[trigger] names[i])@) implies exists|k: int|
        0 <= k < listed.len() && (#[trigger] listed[k]).0@ == stem_of(names[i]@) && (gz_name(names[i]@) ==> gz_name(
            listed[k].1@,
        )) by {
        let stem = stem_of(names[i]@);
        lemma_kept(names, stem);
        assert(kept(names, stem) is Some);
        let k = choose|k: int| 0 <= k < listed.len() && (#[trigger] listed[k]).0@ == stem;
        assert(kept(names, listed[k].0@) == Some(listed[k].1@));
    }
}

/// A frame that names no page: it has no address, an empty one or that of an
/// empty page.
pub open spec fn names_no_page(frame: JsonView) -> bool {
    match member(frame, "url"@) {
        Some(JsonView::Str(u)) => u.len() == 0 || u == "about:blank"@,
        _ => true,
    }
}

proof fn lemma_first_url(frames: Seq<JsonView>, k: int)
    requires
        0 <= k <= frames.len(),
        forall|j: int| 0 <= j < k ==> names_no_page(#[trigger] frames[j]),
        k < frames.len() ==> !names_no_page(frames[k]),
    ensures
        k == frames.len() ==> first_url(frames) is None,
        k < frames.len() ==> first_url(frames) == str_opt(member(frames[k], "url"@)),
    decreases frames.len(),
{
    if frames.len() > 0 {
        assert(real_url(frames[0]) is None <==> names_no_page(frames[0]));
        if k > 0 {
            assert(names_no_page(frames[0]));
            let rest = frames.drop_first();
            assert forall|j: int| 0 <= j < k - 1 implies names_no_page(#[trigger] rest[j]) by {
                assert(rest[j] == frames[j + 1]);
            }
            lemma_first_url(rest, k - 1);
        }
    }
}

/// The page of a trace is the first that a frame names, in the first event on
/// the start of tracing; later events do not matter. Without such an event the
/// page is not known.
pub proof fn lemma_page(events: Seq<EventView>, i: int, frames: Seq<JsonView>, k: int)
    requires
        0 <= i <= events.len(),
        forall|j: int| 0 <= j < i ==> (#[trigger] events[j]).name != "TracingStartedInBrowser"@,
        i < events.len() ==> {
            &&& events[i].name == "TracingStartedInBrowser"@
            &&& member_opt(member_opt(events[i].said(), "data"@), "frames"@) == Some(JsonView::Arr(frames))
        },
        0 <= k <= frames.len(),
        forall|j: int| 0 <= j < k ==> names_no_page(#[trigger] frames[j]),
        k < frames.len() ==> !names_no_page(frames[k]),
    ensures
        i == events.len() ==> url_of(events) is None,
        i < events.len() && k == frames.len() ==> url_of(events) is None,
        i < events.len() && k < frames.len() ==> url_of(events) == str_opt(member(frames[k], "url"@))
            && url_of(events) is Some,
    decreases events.len(),
{
    lemma_first_url(frames, k);
    if events.len() > 0 {
        if i > 0 {
            assert(events[0].name != "TracingStartedInBrowser"@);
            let rest = events.drop_first();
            assert forall|j: int| 0 <= j < i - 1 implies (#[trigger] rest[j]).name != "TracingStartedInBrowser"@ by {
                assert(rest[j] == events[j + 1]);
            }
            lemma_page(rest, i - 1, frames, k);
        } else {
            assert(items_opt(member_opt(member_opt(events[0].said(), "data"@), "frames"@)) == Some(frames));
        }
    }
}

/// The factor is the one asked for, whatever the trace says; else the one that
/// the trace tells; and never below one.
pub proof fn lemma_slowdown(asked: Option<i64>, told: Option<&TraceMetadata>, other: Option<&TraceMetadata>)
    ensures
        factor_of(asked, told) >= 1000,
        asked is Some ==> factor_of(asked, told) == factor_of(asked, other),
        asked matches Some(f) ==> (f >= 1000 ==> factor_of(asked, told) == f),
        asked is None && told is None ==> factor_of(asked, told) == 1000,
        asked is None ==> (told matches Some(m) ==> match m.cpu_throttling {
            Some(t) => text_ticks(t@) matches Some(f) ==> (f >= 1000 ==> factor_of(asked, told) == f),
            None => factor_of(asked, told) == 1000,
        }),
{
}

} // verus!
