//! What a query asks for.

use vstd::prelude::*;
use vstd::string::StringExecFns;
use crate::inspect::events::Sort;
use crate::json::{digits_number, number_of_digits};
use crate::matcher::{regex_pattern, regex_valid, Matcher};
use crate::text::{chars_of, lowercased, same, string_of};

verus! {

/// The flags of a query. Times are nanoseconds.
pub struct Options {
    pub events: Option<String>,
    pub function: Option<String>,
    pub find: Option<String>,
    pub url: Option<String>,
    pub anchor: Option<String>,
    pub around: Option<i64>,
    pub window: Option<i64>,
    pub min_dur: Option<i64>,
    pub bucket: Option<i64>,
    pub top: usize,
    /// A thread's number, or `main`.
    pub tid: Option<String>,
    pub pid: Option<u64>,
    pub cat: Option<String>,
    pub sort: Option<String>,
    pub names: bool,
    pub threads: bool,
    pub stacks: bool,
    pub flame: bool,
    pub task: bool,
    pub timeline: bool,
    pub stats: bool,
    pub worst: bool,
    pub jank: bool,
    pub memory: bool,
    pub input: bool,
    pub async_tasks: bool,
    pub delta: bool,
    pub calltree: bool,
    pub gc: bool,
    pub frames: bool,
    pub full_args: bool,
    pub regex: bool,
    pub pre: i64,
    pub post: i64,
    /// From which duration on a task is long.
    pub lt: i64,
    pub frame_event: String,
}

impl Options {
    /// The query asks for a section, not for the report.
    pub open spec fn inspects(&self) -> bool {
        ||| self.events is Some
        ||| self.function is Some
        ||| self.find is Some
        ||| self.names
        ||| self.threads
        ||| self.stacks
        ||| self.flame
        ||| self.task
        ||| self.timeline
        ||| self.worst
        ||| self.jank
        ||| self.memory
        ||| self.input
        ||| self.async_tasks
        ||| self.anchor is Some
        ||| self.delta
        ||| self.calltree
        ||| self.gc
        ||| self.frames
    }

    /// Whether the query asks for a section.
    pub fn is_inspect(&self) -> (r: bool)
        ensures
            r == self.inspects(),
    {
        self.events.is_some() || self.function.is_some() || self.find.is_some() || self.names
            || self.threads || self.stacks || self.flame || self.task || self.timeline || self.worst
            || self.jank || self.memory || self.input || self.async_tasks || self.anchor.is_some()
            || self.delta || self.calltree || self.gc || self.frames
    }
}

/// The order that a word names: by start, unless it is one of three others.
pub open spec fn sort_named(word: Option<Seq<char>>) -> Sort {
    match word {
        Some(w) => if w == "dur"@ {
            Sort::Dur
        } else if w == "name"@ {
            Sort::Name
        } else if w == "count"@ {
            Sort::Count
        } else {
            Sort::Ts
        },
        None => Sort::Ts,
    }
}

/// The order that a word names.
pub fn sort_of(word: &Option<String>) -> (r: Sort)
    ensures
        r == sort_named(crate::trace::event::opt_chars(*word)),
{
    match word {
        Some(w) => if same(w.as_str(), "dur") {
            Sort::Dur
        } else if same(w.as_str(), "name") {
            Sort::Name
        } else if same(w.as_str(), "count") {
            Sort::Count
        } else {
            Sort::Ts
        },
        None => Sort::Ts,
    }
}

/// Why a query cannot be answered.
pub enum QueryError {
    /// The thread is neither `main` nor a number.
    BadTid(String),
    /// The pattern is no regular expression; what is wrong with it.
    BadPattern(String),
}

impl QueryError {
    /// What the error reads.
    pub fn message(&self) -> (r: String)
        ensures
            r@ == (match *self {
                QueryError::BadTid(t) => "invalid --tid `"@ + t@
                    + "` (use a number or \"main\")"@,
                QueryError::BadPattern(e) => e@,
            }),
    {
        match self {
            QueryError::BadTid(t) => {
                let mut s = String::new();
                s.append("invalid --tid `");
                s.append(t.as_str());
                s.append("` (use a number or \"main\")");
                assert(s@ =~= "invalid --tid `"@ + t@ + "` (use a number or \"main\")"@);
                s
            },
            QueryError::BadPattern(e) => e.clone(),
        }
    }
}

/// The number that a text writes: digits, with a plus sign before them or not.
pub open spec fn tid_number(s: Seq<char>) -> Option<u64> {
    if s.len() > 0 && s[0] == '+' {
        digits_number(s.skip(1))
    } else {
        digits_number(s)
    }
}

/// The number that a text writes.
pub fn parse_tid(s: &str) -> (r: Option<u64>)
    ensures
        r == tid_number(s@),
{
    let c = chars_of(s);
    if c.len() > 0 && c[0] == '+' {
        let rest = string_of(&c, 1, c.len());
        assert(rest@ =~= s@.skip(1));
        number_of_digits(rest.as_str())
    } else {
        number_of_digits(s)
    }
}

/// `m` is the matcher for a pattern.
pub open spec fn matcher_for(pattern: Seq<char>, regex: bool, m: Matcher) -> bool {
    match m {
        Matcher::Substr(p) => !regex && p@ == lowercased(pattern),
        Matcher::Regex(re) => regex && regex_pattern(re) == pattern && regex_valid(pattern),
    }
}

/// A pattern can be matched: one that is to be a regular expression is one.
pub open spec fn pattern_ok(pattern: Seq<char>, regex: bool) -> bool {
    regex ==> regex_valid(pattern)
}

/// The matcher for a pattern.
pub fn make_matcher(pattern: &str, regex: bool) -> (r: Result<Matcher, QueryError>)
    ensures
        match r {
            Ok(m) => pattern_ok(pattern@, regex) && matcher_for(pattern@, regex, m),
            Err(QueryError::BadPattern(_)) => !pattern_ok(pattern@, regex),
            Err(QueryError::BadTid(_)) => false,
        },
{
    match Matcher::new(pattern, regex) {
        Ok(m) => Ok(m),
        Err(e) => Err(QueryError::BadPattern(e)),
    }
}

/// The pattern, where there is one, can be matched.
pub open spec fn pattern_opt_ok(pattern: Option<String>, regex: bool) -> bool {
    pattern matches Some(p) ==> pattern_ok(p@, regex)
}

/// `m` is the matcher for the pattern, where there is one.
pub open spec fn matcher_opt_for(pattern: Option<String>, regex: bool, m: Option<Matcher>) -> bool {
    match (pattern, m) {
        (Some(p), Some(x)) => matcher_for(p@, regex, x),
        (None, None) => true,
        _ => false,
    }
}

/// The matcher for the pattern, where there is one.
pub fn make_matcher_opt(pattern: &Option<String>, regex: bool) -> (r: Result<
    Option<Matcher>,
    QueryError,
>)
    ensures
        match r {
            Ok(m) => pattern_opt_ok(*pattern, regex) && matcher_opt_for(*pattern, regex, m),
            Err(QueryError::BadTid(_)) => false,
            Err(_) => !pattern_opt_ok(*pattern, regex),
        },
{
    match pattern {
        Some(p) => match make_matcher(p.as_str(), regex) {
            Ok(m) => Ok(Some(m)),
            Err(e) => Err(e),
        },
        None => Ok(None),
    }
}

/// The character has the Unicode property of white space.
pub open spec fn is_white(c: char) -> bool {
    let n = c as u32;
    ||| 9 <= n <= 13
    ||| n == 0x20
    ||| n == 0x85
    ||| n == 0xa0
    ||| n == 0x1680
    ||| 0x2000 <= n <= 0x200a
    ||| n == 0x2028
    ||| n == 0x2029
    ||| n == 0x202f
    ||| n == 0x205f
    ||| n == 0x3000
}

/// `char::is_whitespace` tells the characters that have the Unicode property of
/// white space.
#[verifier::external_body]
fn whitespace(c: char) -> (r: bool)
    ensures
        r == is_white(c),
{
    c.is_whitespace()
}

/// The text without white space at its start.
pub open spec fn trimmed_start(s: Seq<char>) -> Seq<char>
    decreases s.len(),
{
    if s.len() > 0 && is_white(s[0]) {
        trimmed_start(s.drop_first())
    } else {
        s
    }
}

/// The text without white space at its end.
pub open spec fn trimmed_end(s: Seq<char>) -> Seq<char>
    decreases s.len(),
{
    if s.len() > 0 && is_white(s.last()) {
        trimmed_end(s.drop_last())
    } else {
        s
    }
}

/// The text without white space at either end.
pub open spec fn trimmed(s: Seq<char>) -> Seq<char> {
    trimmed_end(trimmed_start(s))
}

fn trim_chars(c: &Vec<char>, from: usize, to: usize) -> (r: String)
    requires
        from <= to <= c@.len(),
    ensures
        r@ == trimmed(c@.subrange(from as int, to as int)),
{
    let ghost whole = c@.subrange(from as int, to as int);
    let mut a: usize = from;
    while a < to && whitespace(c[a])
        invariant
            from <= a <= to <= c@.len(),
            trimmed_start(whole) == trimmed_start(c@.subrange(a as int, to as int)),
        decreases to - a,
    {
        assert(c@.subrange(a as int, to as int).drop_first() =~= c@.subrange(a + 1, to as int));
        a = a + 1;
    }
    let ghost mid = c@.subrange(a as int, to as int);
    assert(trimmed_start(whole) == mid);
    let mut b: usize = to;
    while b > a && whitespace(c[b - 1])
        invariant
            from <= a <= b <= to <= c@.len(),
            trimmed_end(mid) == trimmed_end(c@.subrange(a as int, b as int)),
        decreases b,
    {
        assert(c@.subrange(a as int, b as int).drop_last() =~= c@.subrange(a as int, b - 1));
        b = b - 1;
    }
    assert(trimmed_end(mid) == c@.subrange(a as int, b as int));
    string_of(c, a, b)
}

/// The text without white space at either end.
pub fn trim(s: &str) -> (r: String)
    ensures
        r@ == trimmed(s@),
{
    let c = chars_of(s);
    assert(c@.subrange(0, c@.len() as int) =~= c@);
    trim_chars(&c, 0, c.len())
}

/// The names of a list that commas separate, from the one that starts at
/// `from`, of which the characters up to `i` were read: trimmed, without those
/// that are empty then.
pub open spec fn names_from(s: Seq<char>, from: int, i: int) -> Seq<Seq<char>>
    decreases s.len() - i,
{
    if i < from || i >= s.len() {
        with_piece(Seq::empty(), s.subrange(from, s.len() as int))
    } else if s[i] == ',' {
        with_piece(Seq::empty(), s.subrange(from, i)) + names_from(s, i + 1, i + 1)
    } else {
        names_from(s, from, i + 1)
    }
}

/// The names with one more, unless it is empty.
pub open spec fn with_piece(names: Seq<Seq<char>>, piece: Seq<char>) -> Seq<Seq<char>> {
    if trimmed(piece).len() == 0 {
        names
    } else {
        names.push(trimmed(piece))
    }
}

/// The names of a list that commas separate.
pub open spec fn names_in(s: Seq<char>) -> Seq<Seq<char>> {
    names_from(s, 0, 0)
}

/// The names of a list that commas separate.
pub fn split_names(s: &str) -> (r: Vec<String>)
    ensures
        crate::table::name_views(r@) == names_in(s@),
{
    let c = chars_of(s);
    let n = c.len();
    let mut r: Vec<String> = Vec::new();
    let mut from: usize = 0;
    let mut i: usize = 0;
    assert(crate::table::name_views(r@) + names_from(s@, 0, 0) =~= names_in(s@));
    while i < n
        invariant
            n == c@.len(),
            c@ == s@,
            from <= i <= n,
            crate::table::name_views(r@) + names_from(s@, from as int, i as int) == names_in(s@),
        decreases n - i,
    {
        if c[i] == ',' {
            let ghost before = crate::table::name_views(r@);
            push_name(&mut r, &c, from, i);
            proof {
                let piece = s@.subrange(from as int, i as int);
                assert(crate::table::name_views(r@) + names_from(s@, i + 1, i + 1) =~= before
                    + names_from(s@, from as int, i as int));
            }
            from = i + 1;
        }
        i = i + 1;
    }
    let ghost before = crate::table::name_views(r@);
    push_name(&mut r, &c, from, n);
    assert(crate::table::name_views(r@) =~= before + names_from(s@, from as int, n as int));
    r
}

fn push_name(r: &mut Vec<String>, c: &Vec<char>, from: usize, to: usize)
    requires
        from <= to <= c@.len(),
    ensures
        crate::table::name_views(final(r)@) == with_piece(
            crate::table::name_views(old(r)@),
            c@.subrange(from as int, to as int),
        ),
{
    let ghost before = r@;
    let name = trim_chars(c, from, to);
    if !name.as_str().is_empty() {
        let ghost v = name@;
        r.push(name);
        assert(crate::table::name_views(r@) =~= crate::table::name_views(before).push(v));
    }
}

} // verus!
