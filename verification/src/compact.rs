//! JSON values as text, without spaces.

use vstd::prelude::*;
use vstd::string::StringExecFns;
use crate::json::{lemma_array_view, lemma_object_view, Json, JsonView};

verus! {

/// A hexadecimal digit.
pub open spec fn hex_digit(d: int) -> char {
    if d < 10 {
        (48 + d) as char
    } else {
        (87 + d) as char
    }
}

/// A character within a JSON string: quotes, backslashes and control
/// characters are escaped.
pub open spec fn json_char(c: char) -> Seq<char> {
    if c == '"' {
        seq!['\\', '"']
    } else if c == '\\' {
        seq!['\\', '\\']
    } else if c as int == 8 {
        seq!['\\', 'b']
    } else if c == '\t' {
        seq!['\\', 't']
    } else if c == '\n' {
        seq!['\\', 'n']
    } else if c as int == 12 {
        seq!['\\', 'f']
    } else if c == '\r' {
        seq!['\\', 'r']
    } else if (c as int) < 32 {
        seq!['\\', 'u', '0', '0', hex_digit(c as int / 16), hex_digit(c as int % 16)]
    } else {
        seq![c]
    }
}

pub open spec fn json_chars(s: Seq<char>) -> Seq<char>
    decreases s.len(),
{
    if s.len() == 0 {
        Seq::empty()
    } else {
        json_chars(s.drop_last()) + json_char(s.last())
    }
}

/// A string as JSON text, with its quotes.
pub open spec fn json_quoted(s: Seq<char>) -> Seq<char> {
    seq!['"'] + json_chars(s) + seq!['"']
}

/// `serde_json::to_string` of a string: the string in quotes, each quote,
/// backslash and control character escaped, by its letter where it has one,
/// else by its number in lower-case hexadecimal.
#[verifier::external_body]
fn quote(s: &str) -> (r: String)
    ensures
        r@ == json_quoted(s@),
{
    serde_json::to_string(s).unwrap_or_default()
}

/// The text of a JSON value.
pub open spec fn compact(v: JsonView) -> Seq<char>
    decreases v,
{
    match v {
        JsonView::Null => "null"@,
        JsonView::Bool(b) => if b {
            "true"@
        } else {
            "false"@
        },
        JsonView::Number(t) => t,
        JsonView::Str(s) => json_quoted(s),
        JsonView::Arr(a) => "["@ + items_text(a, a.len()) + "]"@,
        JsonView::Obj(o) => "{"@ + members_text(o, o.len()) + "}"@,
    }
}

/// The text of the first `n` items.
pub open spec fn items_text(a: Seq<JsonView>, n: nat) -> Seq<char>
    decreases a, n,
{
    if n == 0 || n > a.len() {
        Seq::empty()
    } else if n == 1 {
        compact(a[0])
    } else {
        items_text(a, (n - 1) as nat) + ","@ + compact(a[n - 1])
    }
}

/// The text of the first `n` members.
pub open spec fn members_text(o: Seq<(Seq<char>, JsonView)>, n: nat) -> Seq<char>
    decreases o, n,
{
    if n == 0 || n > o.len() {
        Seq::empty()
    } else if n == 1 {
        json_quoted(o[0].0) + ":"@ + compact(o[0].1)
    } else {
        members_text(o, (n - 1) as nat) + ","@ + json_quoted(o[n - 1].0) + ":"@ + compact(o[n - 1].1)
    }
}

/// Append the text of a JSON value.
fn write_compact(v: &Json, out: &mut String)
    ensures
        final(out)@ == old(out)@ + compact(v@),
    decreases v,
{
    let ghost start = out@;
    match v {
        Json::Null => {
            out.append("null");
        },
        Json::Bool(b) => {
            out.append(
                if *b {
                    "true"
                } else {
                    "false"
                },
            );
        },
        Json::Number(t) => {
            out.append(t.as_str());
        },
        Json::Str(s) => {
            out.append(quote(s.as_str()).as_str());
        },
        Json::Arr(a) => {
            let ghost av = v@->Arr_0;
            proof {
                lemma_array_view(*a);
            }
            out.append("[");
            let ghost open = out@;
            let mut i: usize = 0;
            assert(open + items_text(av, 0) =~= open);
            while i < a.len()
                invariant
                    i <= a@.len(),
                    *v == Json::Arr(*a),
                    av.len() == a@.len(),
                    forall|k: int| 0 <= k < a@.len() ==> #[trigger] av[k] == a@[k]@,
                    out@ == open + items_text(av, i as nat),
                decreases a@.len() - i,
            {
                assert(av[i as int] == a@[i as int]@);
                assert(decreases_to!(*v => v->Arr_0));
                assert(decreases_to!(*a => a@));
                assert(decreases_to!(a@ => a@[i as int]));
                if i > 0 {
                    out.append(",");
                }
                write_compact(&a[i], out);
                assert(out@ =~= open + items_text(av, (i + 1) as nat));
                i = i + 1;
            }
            out.append("]");
        },
        Json::Obj(m) => {
            let ghost ov = v@->Obj_0;
            proof {
                lemma_object_view(*m);
            }
            out.append("{");
            let ghost open = out@;
            let mut i: usize = 0;
            assert(open + members_text(ov, 0) =~= open);
            while i < m.len()
                invariant
                    i <= m@.len(),
                    *v == Json::Obj(*m),
                    ov.len() == m@.len(),
                    forall|k: int| 0 <= k < m@.len() ==> #[trigger] ov[k] == (m@[k].0@, m@[k].1@),
                    out@ == open + members_text(ov, i as nat),
                decreases m@.len() - i,
            {
                assert(ov[i as int] == (m@[i as int].0@, m@[i as int].1@));
                assert(decreases_to!(*v => v->Obj_0));
                assert(decreases_to!(*m => m@));
                assert(decreases_to!(m@ => m@[i as int]));
                assert(decreases_to!(m@[i as int] => m@[i as int].1));
                if i > 0 {
                    out.append(",");
                }
                out.append(quote(m[i].0.as_str()).as_str());
                out.append(":");
                write_compact(&m[i].1, out);
                assert(out@ =~= open + members_text(ov, (i + 1) as nat));
                i = i + 1;
            }
            out.append("}");
        },
    }
    assert(out@ =~= start + compact(v@));
}

/// The text of a JSON value, without spaces.
pub fn compact_text(v: &Json) -> (r: String)
    ensures
        r@ == compact(v@),
{
    let mut out = String::new();
    write_compact(v, &mut out);
    assert(out@ =~= compact(v@));
    out
}

} // verus!
