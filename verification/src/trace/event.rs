//! The parsed trace event.

use vstd::prelude::*;
use crate::json::{json_opt, parse_json, parsed_json, Json, JsonView};

verus! {

/// The `args` of an event: their text and the value that it parses to. The text
/// is parsed once, and the value is kept beside it.
pub struct Args {
    text: String,
    value: Option<Json>,
}

impl View for Args {
    type V = Seq<char>;

    closed spec fn view(&self) -> Seq<char> {
        self.text@
    }
}

impl Args {
    /// What is kept is what the text parses to.
    #[verifier::type_invariant]
    spec fn kept(self) -> bool {
        json_view_opt(self.value) == parsed_json(self.text@)
    }

    /// The `args` with the given text.
    pub fn new(text: String) -> (r: Args)
        ensures
            r@ == text@,
    {
        let value = parse_json(text.as_str());
        Args { text, value }
    }

    /// The text.
    pub fn text(&self) -> (r: &str)
        ensures
            r@ == self@,
    {
        self.text.as_str()
    }

    /// What the text parses to; `None` where it is not valid JSON.
    pub fn value(&self) -> (r: Option<&Json>)
        ensures
            json_opt(r) == parsed_json(self@),
    {
        proof {
            use_type_invariant(self);
        }
        match &self.value {
            Some(v) => Some(v),
            None => None,
        }
    }
}

/// What an optional value holds.
spec fn json_view_opt(j: Option<Json>) -> Option<JsonView> {
    match j {
        Some(v) => Some(v@),
        None => None,
    }
}

/// A single parsed event. Times are whole nanoseconds.
pub struct TraceEvent {
    pub name: String,
    /// Async id: pairs events with the same `(pid, id)`. `0` unless `has_id`
    /// is set; `0` is a valid id, so it cannot stand for absence.
    pub id: u64,
    /// Whether the event carried an `id`.
    pub has_id: bool,
    /// Event phase: a single ASCII byte, or `0` when absent or empty.
    pub ph: u8,
    pub ts: i64,
    pub dur: Option<i64>,
    pub tid: u64,
    pub pid: u64,
    pub cat: Option<String>,
    pub args: Option<Args>,
}

/// What the text of an event says.
pub struct EventView {
    pub name: Seq<char>,
    pub id: u64,
    pub has_id: bool,
    pub ph: u8,
    pub ts: i64,
    pub dur: Option<i64>,
    pub tid: u64,
    pub pid: u64,
    pub cat: Option<Seq<char>>,
    /// The raw text of the `args`.
    pub args: Option<Seq<char>>,
}

/// The characters of an optional string.
pub open spec fn opt_chars(s: Option<String>) -> Option<Seq<char>> {
    match s {
        Some(t) => Some(t@),
        None => None,
    }
}

/// The text of optional `args`.
pub open spec fn args_chars(a: Option<Args>) -> Option<Seq<char>> {
    match a {
        Some(x) => Some(x@),
        None => None,
    }
}

impl View for TraceEvent {
    type V = EventView;

    open spec fn view(&self) -> EventView {
        EventView {
            name: self.name@,
            id: self.id,
            has_id: self.has_id,
            ph: self.ph,
            ts: self.ts,
            dur: self.dur,
            tid: self.tid,
            pid: self.pid,
            cat: opt_chars(self.cat),
            args: args_chars(self.args),
        }
    }
}

impl EventView {
    /// What the `args` say: the value that their text parses to. `None` where
    /// there are none or they are not valid JSON.
    pub open spec fn said(self) -> Option<JsonView> {
        match self.args {
            Some(t) => parsed_json(t),
            None => None,
        }
    }
}

impl TraceEvent {
    /// The raw `args` JSON text, when the event has one.
    pub fn args_raw(&self) -> (r: Option<&str>)
        ensures
            match r {
                Some(t) => self@.args == Some(t@),
                None => self@.args is None,
            },
    {
        match &self.args {
            Some(a) => Some(a.text()),
            None => None,
        }
    }

    /// The parsed `args`; `None` when the event has none or they are not valid
    /// JSON. Every call gives the value that was parsed first.
    pub fn args_value(&self) -> (r: Option<&Json>)
        ensures
            json_opt(r) == self@.said(),
    {
        match &self.args {
            Some(a) => a.value(),
            None => None,
        }
    }
}

} // verus!
