//! Scopes: which events a query looks at.

use vstd::prelude::*;
use crate::text::{contains, has_sub, lowercased};
use crate::trace::event::TraceEvent;

verus! {

/// Window, thread, process and category that a query is limited to. The window
/// is given by its first and last time, in nanoseconds; the category is a
/// lower-case substring of the event's own.
pub struct Scope {
    pub window: Option<(i64, i64)>,
    pub tid: Option<u64>,
    pub pid: Option<u64>,
    pub cat: Option<String>,
}

/// The time lies in the window, if there is one.
pub open spec fn time_in(window: Option<(i64, i64)>, ts: int) -> bool {
    match window {
        Some((lo, hi)) => lo <= ts <= hi,
        None => true,
    }
}

/// Whether the time lies in the window.
pub fn is_in_window(window: Option<(i64, i64)>, ts: i128) -> (r: bool)
    ensures
        r == time_in(window, ts as int),
{
    match window {
        Some((lo, hi)) => lo as i128 <= ts && ts <= hi as i128,
        None => true,
    }
}

/// The event's thread, process and category are those of the scope.
pub open spec fn allows_source(s: Scope, e: TraceEvent) -> bool {
    &&& s.tid matches Some(t) ==> e.tid == t
    &&& s.pid matches Some(p) ==> e.pid == p
    &&& s.cat matches Some(c) ==> e.cat matches Some(ec) && has_sub(lowercased(ec@), c@)
}

/// The scope holds the event.
pub open spec fn allows(s: Scope, e: TraceEvent) -> bool {
    time_in(s.window, e.ts as int) && allows_source(s, e)
}

/// The scope is that of the whole trace.
pub open spec fn is_full(s: Scope) -> bool {
    s.window is None && s.tid is None && s.pid is None && s.cat is None
}

/// The scope of the whole trace.
pub fn full_scope() -> (s: Scope)
    ensures
        is_full(s),
{
    Scope { window: None, tid: None, pid: None, cat: None }
}

impl Scope {
    /// Whether the scope holds the event.
    pub fn allows_event(&self, e: &TraceEvent) -> (r: bool)
        ensures
            r == allows(*self, *e),
    {
        is_in_window(self.window, e.ts as i128) && self.allows_chunk(e)
    }

    /// Whether the scope holds the samples of a chunk, their times aside: those
    /// are held against the window one by one.
    pub fn allows_chunk(&self, e: &TraceEvent) -> (r: bool)
        ensures
            r == allows_source(*self, *e),
    {
        if let Some(t) = self.tid {
            if e.tid != t {
                return false;
            }
        }
        if let Some(p) = self.pid {
            if e.pid != p {
                return false;
            }
        }
        match &self.cat {
            Some(c) => match &e.cat {
                Some(ec) => contains(ec.as_str().to_lowercase().as_str(), c.as_str()),
                None => false,
            },
            None => true,
        }
    }
}

/// The nearest time that can be told.
pub open spec fn nearest_ts(t: int) -> i64 {
    if t < i64::MIN {
        i64::MIN
    } else if t > i64::MAX {
        i64::MAX
    } else {
        t as i64
    }
}

/// The nearest time that can be told.
pub fn clamp_ts(t: i128) -> (r: i64)
    ensures
        r == nearest_ts(t as int),
{
    if t < i64::MIN as i128 {
        i64::MIN
    } else if t > i64::MAX as i128 {
        i64::MAX
    } else {
        t as i64
    }
}

/// Half the width of a window where nothing else is asked for.
pub const HALF_WINDOW: i64 = 100_000_000;

/// Half the width of a window.
pub open spec fn half_of(window: Option<i64>) -> int {
    match window {
        Some(w) => w as int,
        None => HALF_WINDOW as int,
    }
}

/// The window around a time.
pub open spec fn window_around(center: int, half: int) -> (i64, i64) {
    (nearest_ts(center - half), nearest_ts(center + half))
}

/// The window around a time that is given from the start of the trace.
pub fn window_us(around: Option<i64>, window: Option<i64>, min_ts: i64) -> (r: Option<(i64, i64)>)
    ensures
        r == (match around {
            Some(t) => Some(window_around(min_ts + t, half_of(window))),
            None => None,
        }),
{
    match around {
        Some(t) => {
            let center: i128 = min_ts as i128 + t as i128;
            let half: i128 = match window {
                Some(w) => w as i128,
                None => HALF_WINDOW as i128,
            };
            Some((clamp_ts(center - half), clamp_ts(center + half)))
        },
        None => None,
    }
}

} // verus!
