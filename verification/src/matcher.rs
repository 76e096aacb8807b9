//! Matchers for names and texts: case-insensitive substrings, exact names, and
//! the regular expressions of the `regex` crate.

use vstd::prelude::*;
use vstd::string::StringExecFns;
use vstd::utf8::{encode_utf8, is_ascii_chars};
use crate::json::{lemma_array_view, lemma_object_view, Json, JsonView};
use crate::text::{chars_of, contains, has_sub, lowercased, same};

verus! {

/// A compiled regular expression.
#[verifier::external_type_specification]
#[verifier::external_body]
pub struct ExRegex(regex::Regex);

/// Why a pattern is no regular expression.
#[verifier::external_type_specification]
#[verifier::external_body]
pub struct ExRegexError(regex::Error);

/// The pattern that a compiled expression holds.
pub uninterp spec fn regex_pattern(re: regex::Regex) -> Seq<char>;

/// The pattern is a regular expression that can be compiled.
pub uninterp spec fn regex_valid(pattern: Seq<char>) -> bool;

/// The pattern matches somewhere in the text.
pub uninterp spec fn regex_matches(pattern: Seq<char>, text: Seq<char>) -> bool;

/// Byte position and byte length of the first match of the pattern.
pub uninterp spec fn regex_first(pattern: Seq<char>, text: Seq<char>) -> Option<(usize, usize)>;

/// `regex::Regex::new` compiles a pattern, or tells why it cannot: which of the
/// two depends on the pattern alone.
pub assume_specification[ regex::Regex::new ](re: &str) -> (r: Result<regex::Regex, regex::Error>)
    ensures
        match r {
            Ok(x) => regex_valid(re@) && regex_pattern(x) == re@,
            Err(_) => !regex_valid(re@),
        },
;

/// `regex::Regex::is_match` depends on the pattern and the text alone.
pub assume_specification[ regex::Regex::is_match ](re: &regex::Regex, haystack: &str) -> (r: bool)
    ensures
        r == regex_matches(regex_pattern(*re), haystack@),
;

/// `regex::Regex::as_str` gives the pattern.
pub assume_specification[ regex::Regex::as_str ](re: &regex::Regex) -> (r: &str)
    ensures
        r@ == regex_pattern(*re),
;

/// `regex::Regex::find`: where the first match starts and how long it is, in
/// bytes, depends on the pattern and the text alone. There is one exactly where
/// the pattern matches, and it lies within the text.
#[verifier::external_body]
pub(crate) fn find_first(re: &regex::Regex, text: &str) -> (r: Option<(usize, usize)>)
    ensures
        r == regex_first(regex_pattern(*re), text@),
        r is Some <==> regex_matches(regex_pattern(*re), text@),
        r matches Some((start, len)) ==> start + len <= encode_utf8(text@).len(),
{
    re.find(text).map(|m| (m.start(), m.len()))
}

/// The text of a pattern error, as `regex::Error` displays it. What it reads is
/// left open.
#[verifier::external_body]
fn error_text(e: regex::Error) -> (r: String)
{
    e.to_string()
}

/// A character in lower case, if it is an ASCII letter.
pub open spec fn ascii_lower(c: char) -> char {
    if 'A' <= c && c <= 'Z' {
        ((c as u32 + 32) as u8) as char
    } else {
        c
    }
}

/// `needle` stands in `hay` at `i`, ASCII letters of either case alike.
pub open spec fn stands_ignoring_case(hay: Seq<char>, needle: Seq<char>, i: int) -> bool {
    &&& 0 <= i
    &&& i + needle.len() <= hay.len()
    &&& forall|j: int|
        0 <= j < needle.len() ==> ascii_lower(#[trigger] needle[j]) == ascii_lower(hay[i + j])
}

/// `needle` occurs in `hay`: for an ASCII needle with ASCII letters of either
/// case alike, for any other in the lower-case text.
pub open spec fn occurs_ignoring_case(hay: Seq<char>, needle: Seq<char>) -> bool {
    if is_ascii_chars(needle) {
        exists|i: int| #[trigger] stands_ignoring_case(hay, needle, i)
    } else {
        has_sub(lowercased(hay), needle)
    }
}

fn lower(c: char) -> (r: char)
    ensures
        r == ascii_lower(c),
{
    if 'A' <= c && c <= 'Z' {
        ((c as u32 + 32) as u8) as char
    } else {
        c
    }
}

/// Case-insensitive substring check. The empty text is found everywhere.
pub fn contains_ignore_case(hay: &str, needle: &str) -> (r: bool)
    ensures
        r == occurs_ignoring_case(hay@, needle@),
{
    if !needle.is_ascii() {
        return contains(hay.to_lowercase().as_str(), needle);
    }
    let h = chars_of(hay);
    let n = chars_of(needle);
    if n.len() > h.len() {
        return false;
    }
    let last: usize = h.len() - n.len();
    let mut i: usize = 0;
    loop
        invariant
            h@ == hay@,
            n@ == needle@,
            is_ascii_chars(needle@),
            last == h@.len() - n@.len(),
            i <= last,
            forall|k: int| 0 <= k < i ==> !#[trigger] stands_ignoring_case(hay@, needle@, k),
        decreases last - i,
    {
        if stands_at(&h, &n, i) {
            return true;
        }
        if i == last {
            return false;
        }
        i = i + 1;
    }
}

fn stands_at(h: &Vec<char>, n: &Vec<char>, i: usize) -> (r: bool)
    requires
        i + n@.len() <= h@.len(),
    ensures
        r == stands_ignoring_case(h@, n@, i as int),
{
    let len = h.len();
    let mut j: usize = 0;
    while j < n.len()
        invariant
            len == h@.len(),
            i + n@.len() <= len,
            j <= n@.len(),
            forall|k: int| 0 <= k < j ==> ascii_lower(#[trigger] n@[k]) == ascii_lower(h@[i + k]),
        decreases n@.len() - j,
    {
        if lower(h[i + j]) != lower(n[j]) {
            return false;
        }
        j = j + 1;
    }
    true
}

/// A matcher for names and texts: a substring in lower case, or a regular
/// expression.
pub enum Matcher {
    Substr(String),
    Regex(regex::Regex),
}

/// The matcher matches the text.
pub open spec fn matches_text(m: Matcher, s: Seq<char>) -> bool {
    match m {
        Matcher::Substr(p) => occurs_ignoring_case(s, p@),
        Matcher::Regex(re) => regex_matches(regex_pattern(re), s),
    }
}

/// How a matcher is shown.
pub open spec fn matcher_label(m: Matcher) -> Seq<char> {
    match m {
        Matcher::Substr(p) => "`"@ + p@ + "`"@,
        Matcher::Regex(re) => "/"@ + regex_pattern(re) + "/"@,
    }
}

impl Matcher {
    /// A matcher for a pattern; an error where it is to be a regular expression
    /// and is none.
    pub fn new(pattern: &str, use_regex: bool) -> (r: Result<Matcher, String>)
        ensures
            match r {
                Ok(Matcher::Substr(p)) => !use_regex && p@ == lowercased(pattern@),
                Ok(Matcher::Regex(re)) => use_regex && regex_pattern(re) == pattern@ && regex_valid(
                    pattern@,
                ),
                Err(_) => use_regex && !regex_valid(pattern@),
            },
    {
        if use_regex {
            match regex::Regex::new(pattern) {
                Ok(re) => Ok(Matcher::Regex(re)),
                Err(e) => Err(error_text(e)),
            }
        } else {
            Ok(Matcher::Substr(pattern.to_lowercase()))
        }
    }

    /// Whether the matcher matches the text.
    pub fn matches(&self, s: &str) -> (r: bool)
        ensures
            r == matches_text(*self, s@),
    {
        match self {
            Matcher::Substr(p) => contains_ignore_case(s, p.as_str()),
            Matcher::Regex(re) => re.is_match(s),
        }
    }

    /// How the matcher is shown.
    pub fn label(&self) -> (r: String)
        ensures
            r@ == matcher_label(*self),
    {
        let mut s = String::new();
        match self {
            Matcher::Substr(p) => {
                s.append("`");
                s.append(p.as_str());
                s.append("`");
                assert(s@ =~= "`"@ + p@ + "`"@);
            },
            Matcher::Regex(re) => {
                s.append("/");
                s.append(re.as_str());
                s.append("/");
                assert(s@ =~= "/"@ + regex_pattern(*re) + "/"@);
            },
        }
        s
    }
}

/// Filter by event name: exact names, or regular expressions.
pub enum NameFilter {
    Exact(Vec<String>),
    Regex(Vec<regex::Regex>),
}

/// The name is one of the names.
pub open spec fn is_one_of(names: Seq<String>, name: Seq<char>) -> bool {
    exists|i: int| 0 <= i < names.len() && (#[trigger] names[i])@ == name
}

/// One of the expressions matches the name.
pub open spec fn one_matches(v: Seq<regex::Regex>, name: Seq<char>) -> bool {
    exists|i: int| 0 <= i < v.len() && regex_matches(regex_pattern(#[trigger] v[i]), name)
}

/// The lists hold the same texts.
pub open spec fn same_texts(a: Seq<String>, b: Seq<String>) -> bool {
    a.len() == b.len() && forall|i: int| 0 <= i < a.len() ==> (#[trigger] a[i])@ == b[i]@
}

/// The expressions were compiled from the patterns.
pub open spec fn compiled_from(v: Seq<regex::Regex>, patterns: Seq<String>) -> bool {
    v.len() == patterns.len() && forall|i: int|
        0 <= i < v.len() ==> regex_valid(patterns[i]@) && regex_pattern(#[trigger] v[i])
            == patterns[i]@
}

/// The filter lets the name through.
pub open spec fn filter_passes(f: NameFilter, name: Seq<char>) -> bool {
    match f {
        NameFilter::Exact(v) => is_one_of(v@, name),
        NameFilter::Regex(v) => one_matches(v@, name),
    }
}

impl NameFilter {
    /// A filter for names; an error where they are to be regular expressions
    /// and one of them is none.
    pub fn new(names: &Vec<String>, use_regex: bool) -> (r: Result<NameFilter, String>)
        ensures
            match r {
                Ok(NameFilter::Exact(v)) => !use_regex && same_texts(v@, names@),
                Ok(NameFilter::Regex(v)) => use_regex && compiled_from(v@, names@),
                Err(_) => use_regex && exists|i: int|
                    0 <= i < names@.len() && !regex_valid((#[trigger] names@[i])@),
            },
    {
        let n = names.len();
        if use_regex {
            let mut v: Vec<regex::Regex> = Vec::new();
            let mut i: usize = 0;
            while i < n
                invariant
                    n == names@.len(),
                    i <= n,
                    use_regex,
                    v@.len() == i,
                    forall|k: int| 0 <= k < i ==> regex_pattern(#[trigger] v@[k]) == names@[k]@,
                    forall|k: int| 0 <= k < i ==> regex_valid((#[trigger] names@[k])@),
                decreases n - i,
            {
                match regex::Regex::new(names[i].as_str()) {
                    Ok(re) => {
                        v.push(re);
                    },
                    Err(e) => {
                        assert(!regex_valid(names@[i as int]@));
                        return Err(error_text(e));
                    },
                }
                i = i + 1;
            }
            Ok(NameFilter::Regex(v))
        } else {
            let mut v: Vec<String> = Vec::new();
            let mut i: usize = 0;
            while i < n
                invariant
                    n == names@.len(),
                    i <= n,
                    v@.len() == i,
                    forall|k: int| 0 <= k < i ==> (#[trigger] v@[k])@ == names@[k]@,
                decreases n - i,
            {
                v.push(names[i].clone());
                i = i + 1;
            }
            Ok(NameFilter::Exact(v))
        }
    }

    /// Whether the filter lets the name through.
    pub fn matches(&self, name: &str) -> (r: bool)
        ensures
            r == filter_passes(*self, name@),
    {
        match self {
            NameFilter::Exact(v) => {
                let mut i: usize = 0;
                while i < v.len()
                    invariant
                        i <= v@.len(),
                        *self == NameFilter::Exact(*v),
                        forall|k: int| 0 <= k < i ==> (#[trigger] v@[k])@ != name@,
                    decreases v@.len() - i,
                {
                    if same(v[i].as_str(), name) {
                        assert(v@[i as int]@ == name@);
                        return true;
                    }
                    i = i + 1;
                }
                false
            },
            NameFilter::Regex(v) => {
                let mut i: usize = 0;
                while i < v.len()
                    invariant
                        i <= v@.len(),
                        *self == NameFilter::Regex(*v),
                        forall|k: int|
                            0 <= k < i ==> !regex_matches(regex_pattern(#[trigger] v@[k]), name@),
                    decreases v@.len() - i,
                {
                    if v[i].is_match(name) {
                        assert(regex_matches(regex_pattern(v@[i as int]), name@));
                        return true;
                    }
                    i = i + 1;
                }
                false
            },
        }
    }
}

/// The first text in a JSON value that the matcher matches: strings, object
/// keys and numbers, an object's key before its value.
pub open spec fn first_match(v: JsonView, m: Matcher) -> Option<Seq<char>>
    decreases v,
{
    match v {
        JsonView::Str(s) => if matches_text(m, s) {
            Some(s)
        } else {
            None
        },
        JsonView::Number(t) => if matches_text(m, t) {
            Some(t)
        } else {
            None
        },
        JsonView::Arr(a) => first_in_items(a, m, 0),
        JsonView::Obj(o) => first_in_members(o, m, 0),
        _ => None,
    }
}

pub open spec fn first_in_items(a: Seq<JsonView>, m: Matcher, i: int) -> Option<Seq<char>>
    decreases a, a.len() - i,
{
    if i < 0 || i >= a.len() {
        None
    } else if first_match(a[i], m) is Some {
        first_match(a[i], m)
    } else {
        first_in_items(a, m, i + 1)
    }
}

pub open spec fn first_in_members(o: Seq<(Seq<char>, JsonView)>, m: Matcher, i: int) -> Option<Seq<char>>
    decreases o, o.len() - i,
{
    if i < 0 || i >= o.len() {
        None
    } else if matches_text(m, o[i].0) {
        Some(o[i].0)
    } else if first_match(o[i].1, m) is Some {
        first_match(o[i].1, m)
    } else {
        first_in_members(o, m, i + 1)
    }
}

/// The first text in a JSON value that the matcher matches.
pub fn value_match_text(v: &Json, m: &Matcher) -> (r: Option<String>)
    ensures
        crate::trace::event::opt_chars(r) == first_match(v@, *m),
    decreases v,
{
    match v {
        Json::Str(s) => if m.matches(s.as_str()) {
            Some(s.clone())
        } else {
            None
        },
        Json::Number(t) => if m.matches(t.as_str()) {
            Some(t.clone())
        } else {
            None
        },
        Json::Arr(a) => {
            let ghost av = v@->Arr_0;
            proof {
                lemma_array_view(*a);
            }
            let mut i: usize = 0;
            while i < a.len()
                invariant
                    i <= a@.len(),
                    *v == Json::Arr(*a),
                    v@ == JsonView::Arr(av),
                    av.len() == a@.len(),
                    forall|k: int| 0 <= k < a@.len() ==> #[trigger] av[k] == a@[k]@,
                    first_match(v@, *m) == first_in_items(av, *m, i as int),
                decreases a@.len() - i,
            {
                assert(av[i as int] == a@[i as int]@);
                let r = value_match_text(&a[i], m);
                if r.is_some() {
                    return r;
                }
                i = i + 1;
            }
            None
        },
        Json::Obj(o) => {
            let ghost ov = v@->Obj_0;
            proof {
                lemma_object_view(*o);
            }
            let mut i: usize = 0;
            while i < o.len()
                invariant
                    i <= o@.len(),
                    *v == Json::Obj(*o),
                    v@ == JsonView::Obj(ov),
                    ov.len() == o@.len(),
                    forall|k: int| 0 <= k < o@.len() ==> #[trigger] ov[k] == (o@[k].0@, o@[k].1@),
                    first_match(v@, *m) == first_in_members(ov, *m, i as int),
                decreases o@.len() - i,
            {
                assert(ov[i as int] == (o@[i as int].0@, o@[i as int].1@));
                if m.matches(o[i].0.as_str()) {
                    return Some(o[i].0.clone());
                }
                let r = value_match_text(&o[i].1, m);
                if r.is_some() {
                    return r;
                }
                i = i + 1;
            }
            None
        },
        _ => None,
    }
}

/// The matcher matches a text of the JSON value: any string, key, number or
/// literal in it.
pub open spec fn value_has(v: JsonView, m: Matcher) -> bool
    decreases v,
{
    match v {
        JsonView::Null => matches_text(m, "null"@),
        JsonView::Bool(b) => matches_text(
            m,
            if b {
                "true"@
            } else {
                "false"@
            },
        ),
        JsonView::Str(s) => matches_text(m, s),
        JsonView::Number(t) => matches_text(m, t),
        JsonView::Arr(a) => items_have(a, m, 0),
        JsonView::Obj(o) => members_have(o, m, 0),
    }
}

/// The matcher matches a text of an item from `i` on.
pub open spec fn items_have(a: Seq<JsonView>, m: Matcher, i: int) -> bool
    decreases a, a.len() - i,
{
    0 <= i < a.len() && (value_has(a[i], m) || items_have(a, m, i + 1))
}

/// The matcher matches a text of a member from `i` on.
pub open spec fn members_have(o: Seq<(Seq<char>, JsonView)>, m: Matcher, i: int) -> bool
    decreases o, o.len() - i,
{
    0 <= i < o.len() && (matches_text(m, o[i].0) || value_has(o[i].1, m) || members_have(
        o,
        m,
        i + 1,
    ))
}

/// Whether the matcher matches a text of the JSON value.
pub fn value_matches(v: &Json, m: &Matcher) -> (r: bool)
    ensures
        r == value_has(v@, *m),
    decreases v,
{
    match v {
        Json::Null => m.matches("null"),
        Json::Bool(b) => m.matches(
            if *b {
                "true"
            } else {
                "false"
            },
        ),
        Json::Str(s) => m.matches(s.as_str()),
        Json::Number(t) => m.matches(t.as_str()),
        Json::Arr(a) => {
            let ghost av = v@->Arr_0;
            proof {
                lemma_array_view(*a);
            }
            let mut i: usize = 0;
            while i < a.len()
                invariant
                    i <= a@.len(),
                    *v == Json::Arr(*a),
                    v@ == JsonView::Arr(av),
                    av.len() == a@.len(),
                    forall|k: int| 0 <= k < a@.len() ==> #[trigger] av[k] == a@[k]@,
                    value_has(v@, *m) == items_have(av, *m, i as int),
                decreases a@.len() - i,
            {
                assert(av[i as int] == a@[i as int]@);
                if value_matches(&a[i], m) {
                    return true;
                }
                i = i + 1;
            }
            false
        },
        Json::Obj(o) => {
            let ghost ov = v@->Obj_0;
            proof {
                lemma_object_view(*o);
            }
            let mut i: usize = 0;
            while i < o.len()
                invariant
                    i <= o@.len(),
                    *v == Json::Obj(*o),
                    v@ == JsonView::Obj(ov),
                    ov.len() == o@.len(),
                    forall|k: int| 0 <= k < o@.len() ==> #[trigger] ov[k] == (o@[k].0@, o@[k].1@),
                    value_has(v@, *m) == members_have(ov, *m, i as int),
                decreases o@.len() - i,
            {
                assert(ov[i as int] == (o@[i as int].0@, o@[i as int].1@));
                if m.matches(o[i].0.as_str()) || value_matches(&o[i].1, m) {
                    return true;
                }
                i = i + 1;
            }
            false
        },
    }
}

} // verus!
