//! Rows of JSON objects as comma-separated text.

use vstd::prelude::*;
use vstd::string::StringExecFns;
use crate::compact::{compact, compact_text};
use crate::json::{member, Json, JsonView};
use crate::text::chars_of;

verus! {

/// The field must be quoted: it holds a comma, a quote or a line break.
pub open spec fn needs_quotes(s: Seq<char>) -> bool {
    s.contains(',') || s.contains('"') || s.contains('\n')
}

/// The text with each quote doubled.
pub open spec fn doubled(s: Seq<char>) -> Seq<char>
    decreases s.len(),
{
    if s.len() == 0 {
        Seq::empty()
    } else if s.last() == '"' {
        doubled(s.drop_last()).push('"').push('"')
    } else {
        doubled(s.drop_last()).push(s.last())
    }
}

/// A field as it is written.
pub open spec fn field_text(s: Seq<char>) -> Seq<char> {
    if needs_quotes(s) {
        seq!['"'] + doubled(s) + seq!['"']
    } else {
        s
    }
}

/// A field as it is written: quoted where it must be.
pub fn csv_field(s: &str) -> (r: String)
    ensures
        r@ == field_text(s@),
{
    let c = chars_of(s);
    let n = c.len();
    let mut special = false;
    let mut i: usize = 0;
    while i < n
        invariant
            n == c@.len(),
            i <= n,
            special == exists|j: int|
                0 <= j < i && (#[trigger] c@[j] == ',' || c@[j] == '"' || c@[j] == '\n'),
        decreases n - i,
    {
        let x = c[i];
        if x == ',' || x == '"' || x == '\n' {
            special = true;
            assert(c@[i as int] == x);
        }
        i = i + 1;
    }
    proof {
        if special {
            let j = choose|j: int|
                0 <= j < n && (#[trigger] c@[j] == ',' || c@[j] == '"' || c@[j] == '\n');
            assert(c@.contains(c@[j]));
        }
    }
    if !special {
        return s.to_owned();
    }
    let mut out = String::new();
    out.push('"');
    let mut k: usize = 0;
    assert(c@.take(0) =~= Seq::<char>::empty());
    assert(out@ =~= seq!['"'] + doubled(c@.take(0)));
    while k < n
        invariant
            n == c@.len(),
            k <= n,
            out@ == seq!['"'] + doubled(c@.take(k as int)),
        decreases n - k,
    {
        assert(c@.take(k + 1).drop_last() =~= c@.take(k as int));
        if c[k] == '"' {
            out.push('"');
        }
        out.push(c[k]);
        assert(out@ =~= seq!['"'] + doubled(c@.take(k + 1)));
        k = k + 1;
    }
    assert(c@.take(n as int) =~= c@);
    out.push('"');
    assert(out@ =~= field_text(s@));
    out
}

/// The text with each pair of quotes taken for one.
pub open spec fn undoubled(s: Seq<char>) -> Seq<char>
    decreases s.len(),
{
    if s.len() == 0 {
        Seq::empty()
    } else if s.len() >= 2 && s.last() == '"' && s[s.len() - 2] == '"' {
        undoubled(s.drop_last().drop_last()).push('"')
    } else {
        undoubled(s.drop_last()).push(s.last())
    }
}

/// What a written field says.
pub open spec fn field_read(t: Seq<char>) -> Seq<char> {
    if t.len() >= 2 && t[0] == '"' {
        undoubled(t.subrange(1, t.len() - 1))
    } else {
        t
    }
}

proof fn lemma_undoubled(s: Seq<char>)
    ensures
        undoubled(doubled(s)) == s,
    decreases s.len(),
{
    if s.len() > 0 {
        lemma_undoubled(s.drop_last());
        let d = doubled(s.drop_last());
        if s.last() == '"' {
            assert(d.push('"').push('"').drop_last().drop_last() =~= d);
        } else {
            assert(d.push(s.last()).drop_last() =~= d);
        }
        assert(s =~= s.drop_last().push(s.last()));
    }
}

/// A field that was written is read back as it was.
pub proof fn lemma_field_read_back(s: Seq<char>)
    ensures
        field_read(field_text(s)) == s,
{
    if needs_quotes(s) {
        let t = field_text(s);
        assert(t.subrange(1, t.len() - 1) =~= doubled(s));
        lemma_undoubled(s);
    } else if s.len() >= 2 && s[0] == '"' {
        assert(s.contains(s[0]));
    }
}

/// The text of a value in a field: a string as it is, nothing for null, and
/// else its JSON text.
pub open spec fn value_text(v: Option<JsonView>) -> Seq<char> {
    match v {
        Some(JsonView::Str(s)) => s,
        Some(JsonView::Null) => Seq::empty(),
        Some(j) => compact(j),
        None => Seq::empty(),
    }
}

/// The text of a value in a field.
pub fn json_to_field(v: Option<&Json>) -> (r: String)
    ensures
        r@ == value_text(crate::json::json_opt(v)),
{
    match v {
        Some(j) => match j {
            Json::Str(s) => s.clone(),
            Json::Null => String::new(),
            _ => compact_text(j),
        },
        None => String::new(),
    }
}

/// The keys of an object.
pub open spec fn header(m: Seq<(String, Json)>, n: int) -> Seq<char>
    decreases n,
{
    if n <= 0 {
        Seq::empty()
    } else if n == 1 {
        field_text(m[0].0@)
    } else {
        header(m, n - 1) + ","@ + field_text(m[n - 1].0@)
    }
}

/// The values of a row under the first `n` keys of `m`.
pub open spec fn cells(m: Seq<(String, Json)>, row: Json, n: int) -> Seq<char>
    decreases n,
{
    if n <= 0 {
        Seq::empty()
    } else if n == 1 {
        field_text(value_text(member(row@, m[0].0@)))
    } else {
        cells(m, row, n - 1) + ","@ + field_text(value_text(member(row@, m[n - 1].0@)))
    }
}

/// One line per row that is an object.
pub open spec fn lines(m: Seq<(String, Json)>, rows: Seq<Json>, n: int) -> Seq<char>
    decreases n,
{
    if n <= 0 {
        Seq::empty()
    } else if rows[n - 1] is Obj {
        lines(m, rows, n - 1) + cells(m, rows[n - 1], m.len() as int) + "\n"@
    } else {
        lines(m, rows, n - 1)
    }
}

/// The rows as comma-separated text, headed by the keys of the first row;
/// nothing where that is no object.
pub open spec fn csv_text(rows: Seq<Json>) -> Seq<char> {
    if rows.len() == 0 {
        Seq::empty()
    } else {
        match rows[0] {
            Json::Obj(m) => header(m@, m@.len() as int) + "\n"@ + lines(m@, rows, rows.len() as int),
            _ => Seq::empty(),
        }
    }
}

fn write_header(out: &mut String, m: &Vec<(String, Json)>)
    ensures
        final(out)@ == old(out)@ + header(m@, m@.len() as int),
{
    let ghost before = out@;
    let mut k: usize = 0;
    assert(before + header(m@, 0) =~= before);
    while k < m.len()
        invariant
            k <= m@.len(),
            out@ == before + header(m@, k as int),
        decreases m@.len() - k,
    {
        if k > 0 {
            out.append(",");
        }
        out.append(csv_field(m[k].0.as_str()).as_str());
        assert(out@ =~= before + header(m@, k + 1));
        k = k + 1;
    }
}

fn write_cells(out: &mut String, m: &Vec<(String, Json)>, row: &Json)
    ensures
        final(out)@ == old(out)@ + cells(m@, *row, m@.len() as int),
{
    let ghost before = out@;
    let mut k: usize = 0;
    assert(before + cells(m@, *row, 0) =~= before);
    while k < m.len()
        invariant
            k <= m@.len(),
            out@ == before + cells(m@, *row, k as int),
        decreases m@.len() - k,
    {
        if k > 0 {
            out.append(",");
        }
        let field = json_to_field(row.get(m[k].0.as_str()));
        out.append(csv_field(field.as_str()).as_str());
        assert(out@ =~= before + cells(m@, *row, k + 1));
        k = k + 1;
    }
}

/// Write rows of objects as comma-separated text, headed by the keys of the
/// first. Nested values are written as JSON text.
pub fn rows_to_csv(rows: &Vec<Json>) -> (r: String)
    ensures
        r@ == csv_text(rows@),
{
    let mut out = String::new();
    assert(out@ =~= Seq::<char>::empty());
    if rows.len() == 0 {
        return out;
    }
    let m = match &rows[0] {
        Json::Obj(m) => m,
        _ => {
            return out;
        },
    };
    write_header(&mut out, m);
    out.append("\n");
    let ghost head = out@;
    let mut k: usize = 0;
    assert(head + lines(m@, rows@, 0) =~= head);
    while k < rows.len()
        invariant
            k <= rows@.len(),
            out@ == head + lines(m@, rows@, k as int),
        decreases rows@.len() - k,
    {
        let row = &rows[k];
        if let Json::Obj(_) = row {
            write_cells(&mut out, m, row);
            out.append("\n");
        }
        assert(out@ =~= head + lines(m@, rows@, k + 1));
        k = k + 1;
    }
    assert(out@ =~= csv_text(rows@));
    out
}

/// The name of a block: the section's, with a prefix where there is one.
pub open spec fn block_label(prefix: Option<&str>, key: Seq<char>) -> Seq<char> {
    match prefix {
        Some(p) => p@ + "."@ + key,
        None => key,
    }
}

/// A block: a comment line that names it, and its rows.
pub open spec fn block_text(label: Seq<char>, rows: Seq<Json>) -> Seq<char> {
    "# "@ + label + "\n"@ + csv_text(rows)
}

/// One block for each of the first `n` members that is a list.
pub open spec fn member_blocks(label: Seq<char>, m: Seq<(String, Json)>, n: int) -> Seq<char>
    decreases n,
{
    if n <= 0 {
        Seq::empty()
    } else {
        member_blocks(label, m, n - 1) + match m[n - 1].1 {
            Json::Arr(rows) => block_text(label + "."@ + m[n - 1].0@, rows@),
            _ => Seq::empty(),
        }
    }
}

/// The blocks of a section: of a list one, of an object one for each list in
/// it, and none of anything else.
pub open spec fn section_blocks(label: Seq<char>, v: Json) -> Seq<char> {
    match v {
        Json::Arr(rows) => block_text(label, rows@),
        Json::Obj(m) => member_blocks(label, m@, m@.len() as int),
        _ => Seq::empty(),
    }
}

/// The blocks of the first `n` sections.
pub open spec fn blocks_text(prefix: Option<&str>, s: Seq<(String, Json)>, n: int) -> Seq<char>
    decreases n,
{
    if n <= 0 {
        Seq::empty()
    } else {
        blocks_text(prefix, s, n - 1) + section_blocks(
            block_label(prefix, s[n - 1].0@),
            s[n - 1].1,
        )
    }
}

fn write_block(out: &mut String, label: &str, rows: &Vec<Json>)
    ensures
        final(out)@ == old(out)@ + block_text(label@, rows@),
{
    let ghost before = out@;
    out.append("# ");
    out.append(label);
    out.append("\n");
    out.append(rows_to_csv(rows).as_str());
    assert(out@ =~= before + block_text(label@, rows@));
}

fn write_members(out: &mut String, label: &str, m: &Vec<(String, Json)>)
    ensures
        final(out)@ == old(out)@ + member_blocks(label@, m@, m@.len() as int),
{
    let ghost before = out@;
    let mut k: usize = 0;
    assert(before + member_blocks(label@, m@, 0) =~= before);
    while k < m.len()
        invariant
            k <= m@.len(),
            out@ == before + member_blocks(label@, m@, k as int),
        decreases m@.len() - k,
    {
        if let Json::Arr(rows) = &m[k].1 {
            let mut name = label.to_owned();
            name.append(".");
            name.append(m[k].0.as_str());
            assert(name@ =~= label@ + "."@ + m@[k as int].0@);
            write_block(out, name.as_str(), rows);
        }
        assert(out@ =~= before + member_blocks(label@, m@, k + 1));
        k = k + 1;
    }
}

/// Write sections as blocks of comma-separated text, each headed by a comment
/// line that names it.
pub fn csv_blocks(sections: &Vec<(String, Json)>, prefix: Option<&str>) -> (r: String)
    ensures
        r@ == blocks_text(prefix, sections@, sections@.len() as int),
{
    let mut out = String::new();
    let mut k: usize = 0;
    assert(out@ =~= blocks_text(prefix, sections@, 0));
    while k < sections.len()
        invariant
            k <= sections@.len(),
            out@ == blocks_text(prefix, sections@, k as int),
        decreases sections@.len() - k,
    {
        let mut label = String::new();
        if let Some(p) = prefix {
            label.append(p);
            label.append(".");
        }
        label.append(sections[k].0.as_str());
        assert(label@ =~= block_label(prefix, sections@[k as int].0@));
        match &sections[k].1 {
            Json::Arr(rows) => write_block(&mut out, label.as_str(), rows),
            Json::Obj(m) => write_members(&mut out, label.as_str(), m),
            _ => {},
        }
        assert(out@ =~= blocks_text(prefix, sections@, k + 1));
        k = k + 1;
    }
    out
}

} // verus!
