//! String helpers.

use vstd::prelude::*;
use vstd::string::StringSliceAdditionalSpecFns;
use vstd::utf8::{decode_utf8, encode_utf8_decode_utf8, valid_utf8};

verus! {

/// The slices hold the same bytes.
pub fn same_bytes(a: &[u8], b: &[u8]) -> (r: bool)
    ensures
        r == (a@ == b@),
{
    if a.len() != b.len() {
        return false;
    }
    let mut i: usize = 0;
    while i < a.len()
        invariant
            i <= a@.len(),
            a@.len() == b@.len(),
            forall|j: int| 0 <= j < i ==> a@[j] == b@[j],
        decreases a@.len() - i,
    {
        if a[i] != b[i] {
            return false;
        }
        i = i + 1;
    }
    assert(a@ =~= b@);
    true
}

/// The strings are equal.
pub fn same(a: &str, b: &str) -> (r: bool)
    ensures
        r == (a@ == b@),
{
    proof {
        encode_utf8_decode_utf8(a@);
        encode_utf8_decode_utf8(b@);
    }
    same_bytes(a.as_bytes(), b.as_bytes())
}

/// The error of `core::str::from_utf8`.
#[verifier::external_type_specification]
#[verifier::external_body]
pub struct ExUtf8Error(core::str::Utf8Error);

/// `core::str::from_utf8` accepts the bytes that are valid UTF-8, and those
/// only, and gives the string that they encode.
pub assume_specification[ core::str::from_utf8 ](v: &[u8]) -> (r: Result<&str, core::str::Utf8Error>)
    ensures
        r is Ok <==> valid_utf8(v@),
        r matches Ok(s) ==> s@ == decode_utf8(v@),
;

/// `String::push` appends one character.
pub assume_specification[ String::push ](s: &mut String, c: char)
    ensures
        final(s)@ == old(s)@.push(c),
;

/// The characters of a string.
pub fn chars_of(s: &str) -> (r: Vec<char>)
    ensures
        r@ == s@,
{
    let mut out: Vec<char> = Vec::new();
    for c in it: s.chars()
        invariant
            it.seq() == s@,
            out@ == s@.take(it.index()),
    {
        out.push(c);
        assert(s@.take(it.index() + 1) =~= s@.take(it.index()).push(c));
    }
    assert(s@.take(s@.len() as int) =~= s@);
    out
}

/// The string with the characters `[from, to)` of `c`.
pub fn string_of(c: &Vec<char>, from: usize, to: usize) -> (r: String)
    requires
        from <= to <= c@.len(),
    ensures
        r@ == c@.subrange(from as int, to as int),
{
    let mut out = String::new();
    let mut i: usize = from;
    while i < to
        invariant
            from <= i <= to <= c@.len(),
            out@ == c@.subrange(from as int, i as int),
        decreases to - i,
    {
        out.push(c[i]);
        assert(c@.subrange(from as int, i + 1) =~= c@.subrange(from as int, i as int).push(
            c@[i as int],
        ));
        i = i + 1;
    }
    out
}

/// `pat` stands in `s` at position `i`.
pub open spec fn stands_at(s: Seq<char>, pat: Seq<char>, i: int) -> bool {
    0 <= i && i + pat.len() <= s.len() && s.subrange(i, i + pat.len()) == pat
}

/// `pat` occurs in `s`.
pub open spec fn has_sub(s: Seq<char>, pat: Seq<char>) -> bool {
    exists|i: int| #[trigger] stands_at(s, pat, i)
}

/// `s` starts with `pat`.
pub open spec fn has_prefix(s: Seq<char>, pat: Seq<char>) -> bool {
    stands_at(s, pat, 0)
}

/// `s` ends with `pat`.
pub open spec fn has_suffix(s: Seq<char>, pat: Seq<char>) -> bool {
    stands_at(s, pat, s.len() - pat.len())
}

/// Whether `pat` stands in `s` at `i`.
pub fn matches_at(s: &Vec<char>, pat: &Vec<char>, i: usize) -> (r: bool)
    ensures
        r == stands_at(s@, pat@, i as int),
{
    if i > s.len() || s.len() - i < pat.len() {
        return false;
    }
    let n = s.len();
    let mut k: usize = 0;
    while k < pat.len()
        invariant
            k <= pat@.len(),
            n == s@.len(),
            i + pat@.len() <= n,
            forall|j: int| 0 <= j < k ==> s@[i + j] == pat@[j],
        decreases pat@.len() - k,
    {
        if s[i + k] != pat[k] {
            assert(s@.subrange(i as int, i + pat@.len())[k as int] != pat@[k as int]);
            return false;
        }
        k = k + 1;
    }
    assert(s@.subrange(i as int, i + pat@.len()) =~= pat@);
    true
}

/// The first position where `pat` stands in `s`.
pub fn find_sub(s: &Vec<char>, pat: &Vec<char>) -> (r: Option<usize>)
    ensures
        match r {
            Some(i) => stands_at(s@, pat@, i as int) && forall|j: int|
                0 <= j < i ==> !#[trigger] stands_at(s@, pat@, j),
            None => !has_sub(s@, pat@),
        },
{
    let n = s.len();
    if n < pat.len() {
        return None;
    }
    let last: usize = n - pat.len();
    let mut i: usize = 0;
    loop
        invariant
            n == s@.len(),
            last == n - pat@.len(),
            i <= last,
            forall|j: int| 0 <= j < i ==> !#[trigger] stands_at(s@, pat@, j),
        decreases last - i,
    {
        if matches_at(s, pat, i) {
            return Some(i);
        }
        if i == last {
            return None;
        }
        i = i + 1;
    }
}

/// Whether `pat` occurs in `s`.
pub fn contains(s: &str, pat: &str) -> (r: bool)
    ensures
        r == has_sub(s@, pat@),
{
    match find_sub(&chars_of(s), &chars_of(pat)) {
        Some(_) => true,
        None => false,
    }
}

/// Whether `s` starts with `pat`.
pub fn starts_with(s: &str, pat: &str) -> (r: bool)
    ensures
        r == has_prefix(s@, pat@),
{
    matches_at(&chars_of(s), &chars_of(pat), 0)
}

/// Whether `s` ends with `pat`.
pub fn ends_with(s: &str, pat: &str) -> (r: bool)
    ensures
        r == has_suffix(s@, pat@),
{
    let c = chars_of(s);
    let p = chars_of(pat);
    if p.len() > c.len() {
        return false;
    }
    matches_at(&c, &p, c.len() - p.len())
}

/// `a` comes before `b` in the order of their characters.
pub open spec fn text_less(a: Seq<char>, b: Seq<char>) -> bool
    decreases a.len(),
{
    if b.len() == 0 {
        false
    } else if a.len() == 0 {
        true
    } else if a[0] != b[0] {
        a[0] < b[0]
    } else {
        text_less(a.drop_first(), b.drop_first())
    }
}

/// Whether `a` comes before `b`.
pub fn less(a: &str, b: &str) -> (r: bool)
    ensures
        r == text_less(a@, b@),
{
    let x = chars_of(a);
    let y = chars_of(b);
    let mut i: usize = 0;
    assert(x@.skip(0) =~= x@);
    assert(y@.skip(0) =~= y@);
    loop
        invariant
            x@ == a@,
            y@ == b@,
            i <= x@.len(),
            i <= y@.len(),
            text_less(a@, b@) == text_less(x@.skip(i as int), y@.skip(i as int)),
        decreases x@.len() - i,
    {
        if i >= y.len() {
            return false;
        }
        if i >= x.len() {
            return true;
        }
        if x[i] != y[i] {
            return x[i] < y[i];
        }
        assert(x@.skip(i as int).drop_first() =~= x@.skip(i + 1));
        assert(y@.skip(i as int).drop_first() =~= y@.skip(i + 1));
        i = i + 1;
    }
}

/// Position of the last dot, or `-1`.
pub open spec fn last_dot(s: Seq<char>) -> int
    decreases s.len(),
{
    if s.len() == 0 {
        -1
    } else if s.last() == '.' {
        s.len() - 1
    } else {
        last_dot(s.drop_last())
    }
}

/// A file name without its last extension. A dot that starts the name starts
/// no extension.
pub open spec fn file_stem_of(name: Seq<char>) -> Seq<char> {
    if last_dot(name) <= 0 {
        name
    } else {
        name.take(last_dot(name))
    }
}

/// `s` without the suffix `pat`, if it has it.
pub open spec fn without_suffix(s: Seq<char>, pat: Seq<char>) -> Seq<char> {
    if has_suffix(s, pat) {
        s.take(s.len() - pat.len())
    } else {
        s
    }
}

/// The character of a digit.
pub open spec fn digit_char(d: nat) -> char {
    (48 + d) as u8 as char
}

/// A number in decimal.
pub open spec fn decimal(n: nat) -> Seq<char>
    decreases n,
{
    if n < 10 {
        seq![digit_char(n)]
    } else {
        decimal(n / 10).push(digit_char(n % 10))
    }
}

/// A number in decimal.
pub fn u64_text(n: u64) -> (r: String)
    ensures
        r@ == decimal(n as nat),
    decreases n,
{
    if n < 10 {
        let mut s = String::new();
        s.push((48 + n as u8) as char);
        assert(s@ =~= decimal(n as nat));
        s
    } else {
        let mut s = u64_text(n / 10);
        s.push((48 + (n % 10) as u8) as char);
        s
    }
}

/// A large number in decimal.
pub fn u128_text(n: u128) -> (r: String)
    ensures
        r@ == decimal(n as nat),
    decreases n,
{
    if n < 10 {
        let mut s = String::new();
        s.push((48 + n as u8) as char);
        assert(s@ =~= decimal(n as nat));
        s
    } else {
        let mut s = u128_text(n / 10);
        s.push((48 + (n % 10) as u8) as char);
        s
    }
}

/// What follows the last slash.
pub open spec fn after_slash(s: Seq<char>) -> Seq<char>
    decreases s.len(),
{
    if s.len() == 0 || s.last() == '/' {
        Seq::empty()
    } else {
        after_slash(s.drop_last()).push(s.last())
    }
}

/// What follows the last slash; the whole string when there is none.
pub fn tail_of_path(s: &str) -> (r: String)
    ensures
        r@ == after_slash(s@),
{
    let c = chars_of(s);
    let n = c.len();
    let mut i: usize = n;
    assert(c@.take(n as int) =~= c@);
    assert(c@.subrange(n as int, n as int) =~= Seq::<char>::empty());
    assert(after_slash(c@) =~= after_slash(c@.take(n as int)) + c@.subrange(n as int, n as int));
    while i > 0 && c[i - 1] != '/'
        invariant
            n == c@.len(),
            i <= n,
            after_slash(c@) == after_slash(c@.take(i as int)) + c@.subrange(i as int, n as int),
        decreases i,
    {
        assert(c@.take(i as int).drop_last() =~= c@.take(i - 1));
        assert(after_slash(c@.take(i as int)) + c@.subrange(i as int, n as int) =~= after_slash(
            c@.take(i - 1),
        ) + c@.subrange(i - 1, n as int));
        i = i - 1;
    }
    let r = string_of(&c, i, n);
    assert(after_slash(c@.take(i as int)) =~= Seq::<char>::empty());
    assert(after_slash(c@) =~= r@);
    r
}

/// A string in lower case, by the Unicode rules of `str::to_lowercase`.
pub uninterp spec fn lowercased(s: Seq<char>) -> Seq<char>;

/// `str::to_lowercase` depends on the characters alone.
pub assume_specification[ str::to_lowercase ](s: &str) -> (r: String)
    ensures
        r@ == lowercased(s@),
;

pub proof fn lemma_less_irreflexive(a: Seq<char>)
    ensures
        !text_less(a, a),
    decreases a.len(),
{
    if a.len() > 0 {
        lemma_less_irreflexive(a.drop_first());
    }
}

pub proof fn lemma_less_transitive(a: Seq<char>, b: Seq<char>, c: Seq<char>)
    requires
        text_less(a, b),
        text_less(b, c),
    ensures
        text_less(a, c),
    decreases a.len(),
{
    if a.len() > 0 && b.len() > 0 && c.len() > 0 && a[0] == b[0] && b[0] == c[0] {
        lemma_less_transitive(a.drop_first(), b.drop_first(), c.drop_first());
    }
}

pub proof fn lemma_less_total(a: Seq<char>, b: Seq<char>)
    ensures
        text_less(a, b) || text_less(b, a) || a == b,
    decreases a.len(),
{
    if a.len() == 0 || b.len() == 0 {
        if a.len() == 0 && b.len() == 0 {
            assert(a =~= b);
        }
    } else if a[0] == b[0] {
        lemma_less_total(a.drop_first(), b.drop_first());
        if a.drop_first() == b.drop_first() {
            assert(a =~= seq![a[0]] + a.drop_first());
            assert(b =~= seq![b[0]] + b.drop_first());
        }
    }
}

/// The first pair comes before the second: by its first text, then by its
/// second.
pub open spec fn pair_less(a: (Seq<char>, Seq<char>), b: (Seq<char>, Seq<char>)) -> bool {
    text_less(a.0, b.0) || a.0 == b.0 && text_less(a.1, b.1)
}

/// The texts of pairs.
pub open spec fn pair_texts(v: Seq<(String, String)>) -> Seq<(Seq<char>, Seq<char>)> {
    v.map_values(|p: (String, String)| (p.0@, p.1@))
}

/// The pairs stand in their order, none twice.
pub open spec fn pairs_sorted(v: Seq<(Seq<char>, Seq<char>)>) -> bool {
    forall|i: int, j: int| 0 <= i < j < v.len() ==> pair_less(#[trigger] v[i], #[trigger] v[j])
}

pub proof fn lemma_pair_order(
    a: (Seq<char>, Seq<char>),
    b: (Seq<char>, Seq<char>),
    c: (Seq<char>, Seq<char>),
)
    ensures
        !pair_less(a, a),
        pair_less(a, b) || pair_less(b, a) || a == b,
        pair_less(a, b) && pair_less(b, c) ==> pair_less(a, c),
{
    lemma_less_irreflexive(a.0);
    lemma_less_irreflexive(a.1);
    lemma_less_total(a.0, b.0);
    lemma_less_total(a.1, b.1);
    if text_less(a.0, b.0) && text_less(b.0, c.0) {
        lemma_less_transitive(a.0, b.0, c.0);
    }
    if text_less(a.1, b.1) && text_less(b.1, c.1) {
        lemma_less_transitive(a.1, b.1, c.1);
    }
}

fn is_pair_less(a: &(String, String), name: &str, url: &str) -> (r: bool)
    ensures
        r == pair_less((a.0@, a.1@), (name@, url@)),
{
    if less(a.0.as_str(), name) {
        return true;
    }
    same(a.0.as_str(), name) && less(a.1.as_str(), url)
}

/// Take a pair into a sorted list, unless it is there.
pub fn insert_pair(v: &mut Vec<(String, String)>, name: &str, url: &str)
    requires
        pairs_sorted(pair_texts(old(v)@)),
    ensures
        pairs_sorted(pair_texts(final(v)@)),
        forall|p: (Seq<char>, Seq<char>)| #[trigger]
            pair_texts(final(v)@).contains(p) <==> pair_texts(old(v)@).contains(p) || p == (
                name@,
                url@,
            ),
{
    let ghost new = (name@, url@);
    let ghost old_texts = pair_texts(v@);
    let mut lo: usize = 0;
    let mut hi: usize = v.len();
    while lo < hi
        invariant
            lo <= hi <= v@.len(),
            old_texts == pair_texts(v@),
            pairs_sorted(old_texts),
            new == (name@, url@),
            forall|i: int| 0 <= i < lo ==> pair_less(#[trigger] old_texts[i], new),
            forall|i: int| hi <= i < v@.len() ==> !pair_less(#[trigger] old_texts[i], new),
        decreases hi - lo,
    {
        let mid: usize = lo + (hi - lo) / 2;
        assert(old_texts[mid as int] == (v@[mid as int].0@, v@[mid as int].1@));
        if is_pair_less(&v[mid], name, url) {
            assert forall|i: int| 0 <= i < mid + 1 implies pair_less(#[trigger] old_texts[i], new) by {
                if i < mid {
                    assert(pair_less(old_texts[i], old_texts[mid as int]));
                    lemma_pair_order(old_texts[i], old_texts[mid as int], new);
                }
            }
            lo = mid + 1;
        } else {
            assert forall|i: int| mid <= i < v@.len() implies !pair_less(#[trigger] old_texts[i], new) by {
                if i > mid && pair_less(old_texts[i], new) {
                    assert(pair_less(old_texts[mid as int], old_texts[i]));
                    lemma_pair_order(old_texts[mid as int], old_texts[i], new);
                }
            }
            hi = mid;
        }
    }
    if lo < v.len() {
        assert(old_texts[lo as int] == (v@[lo as int].0@, v@[lo as int].1@));
        if same(v[lo].0.as_str(), name) && same(v[lo].1.as_str(), url) {
            assert(old_texts.contains(new));
            return ;
        }
    }
    v.insert(lo, (name.to_owned(), url.to_owned()));
    proof {
        let after = pair_texts(v@);
        assert(after =~= old_texts.insert(lo as int, new));
        assert forall|i: int, j: int| 0 <= i < j < after.len() implies pair_less(
            #[trigger] after[i],
            #[trigger] after[j],
        ) by {
            let a = if i < lo {
                i
            } else {
                i - 1
            };
            let b = if j < lo {
                j
            } else {
                j - 1
            };
            if i == lo {
                assert(after[j] == old_texts[b]);
                lemma_pair_order(old_texts[b], new, new);
                if b > lo {
                    assert(pair_less(old_texts[lo as int], old_texts[b]));
                    lemma_pair_order(new, old_texts[lo as int], old_texts[b]);
                    lemma_pair_order(old_texts[lo as int], new, new);
                }
            } else if j == lo {
                assert(after[i] == old_texts[a]);
            } else {
                assert(after[i] == old_texts[a] && after[j] == old_texts[b]);
                assert(pair_less(old_texts[a], old_texts[b]));
            }
        }
        assert forall|p: (Seq<char>, Seq<char>)| #[trigger] after.contains(p) <==> old_texts.contains(p)
            || p == new by {
            if old_texts.contains(p) {
                let w = choose|w: int| 0 <= w < old_texts.len() && old_texts[w] == p;
                if w < lo {
                    assert(after[w] == p);
                } else {
                    assert(after[w + 1] == p);
                }
            }
            if after.contains(p) && p != new {
                let w = choose|w: int| 0 <= w < after.len() && after[w] == p;
                if w < lo {
                    assert(old_texts[w] == p);
                } else {
                    assert(old_texts[w - 1] == p);
                }
            }
            assert(after[lo as int] == new);
        }
    }
}

} // verus!
