//! How typed lines, lists of names, keys and tables of values are read and
//! written.

use vstd::prelude::*;
use crate::compact::compact;
use crate::csv::{cells, csv_text, field_text, header, lines, value_text};
use crate::json::{member, Json, JsonView};
use crate::query::keys::{step_of, Key, Step};
use crate::query::options::{
    is_white,
    names_from,
    names_in,
    sort_named,
    trimmed,
    trimmed_end,
    trimmed_start,
    with_piece,
    Options,
};
use crate::query::repl::{
    action_of,
    before_equals,
    closed,
    command_of,
    is_bare,
    mapped,
    reading,
    tokens,
    Asked,
    Command,
};

verus! {

proof fn lemma_reading_joined(a: Seq<char>, b: Seq<char>)
    requires
        !reading(a).single,
        !reading(a).double,
        !reading(a).escape,
    ensures
        ({
            let x = reading(a + seq![' '] + b);
            let y = reading(b);
            &&& x.done == closed(reading(a)) + y.done
            &&& x.cur == y.cur
            &&& x.single == y.single
            &&& x.double == y.double
            &&& x.escape == y.escape
        }),
    decreases b.len(),
{
    let line = a + seq![' '] + b;
    if b.len() == 0 {
        assert(line.drop_last() =~= a);
        assert(line.last() == ' ');
        assert(closed(reading(a)) + Seq::<Seq<char>>::empty() =~= closed(reading(a)));
    } else {
        let c = b.drop_last();
        lemma_reading_joined(a, c);
        assert(line.drop_last() =~= a + seq![' '] + c);
        assert(line.last() == b.last());
        let head = closed(reading(a));
        let y = reading(c);
        assert(head + y.done.push(y.cur) =~= (head + y.done).push(y.cur));
    }
}

/// A space outside of quotes stands between tokens: the tokens of two parts are
/// those of the first and then those of the second.
pub proof fn lemma_tokens_joined(a: Seq<char>, b: Seq<char>)
    requires
        !reading(a).single,
        !reading(a).double,
        !reading(a).escape,
    ensures
        tokens(a + seq![' '] + b) == tokens(a) + tokens(b),
{
    lemma_reading_joined(a, b);
    let head = closed(reading(a));
    let y = reading(b);
    assert(head + y.done.push(y.cur) =~= (head + y.done).push(y.cur));
}

/// A character that is read as it stands.
pub open spec fn is_plain(c: char) -> bool {
    c != ' ' && c != '\t' && c != '\'' && c != '"' && c != '\\'
}

/// A word of plain characters is one token, and leaves nothing open.
pub proof fn lemma_plain_word(w: Seq<char>)
    requires
        forall|i: int| 0 <= i < w.len() ==> is_plain(#[trigger] w[i]),
    ensures
        w.len() > 0 ==> tokens(w) == seq![w],
        !reading(w).single,
        !reading(w).double,
        !reading(w).escape,
        reading(w).cur == w,
        reading(w).done.len() == 0,
    decreases w.len(),
{
    if w.len() > 0 {
        let t = w.drop_last();
        assert forall|i: int| 0 <= i < t.len() implies is_plain(#[trigger] t[i]) by {
            assert(t[i] == w[i]);
        }
        lemma_plain_word(t);
        assert(is_plain(w[w.len() - 1]));
        assert(t.push(w.last()) =~= w);
        assert(reading(w).done.push(w) =~= seq![w]);
    } else {
        assert(reading(w).cur =~= w);
    }
}

proof fn lemma_in_quotes(q: char, w: Seq<char>)
    requires
        q == '"' || q == '\'',
        forall|i: int| 0 <= i < w.len() ==> (#[trigger] w[i]) != q && (q == '"' ==> w[i] != '\\'),
    ensures
        ({
            let r = reading(seq![q] + w);
            &&& r.done.len() == 0
            &&& r.cur == w
            &&& r.single == (q == '\'')
            &&& r.double == (q == '"')
            &&& !r.escape
        }),
    decreases w.len(),
{
    let line = seq![q] + w;
    if w.len() == 0 {
        assert(line.drop_last() =~= Seq::<char>::empty());
        assert(line.last() == q);
        assert(reading(Seq::<char>::empty()).cur =~= w);
    } else {
        let t = w.drop_last();
        assert forall|i: int| 0 <= i < t.len() implies (#[trigger] t[i]) != q && (q == '"' ==> t[i] != '\\') by {
            assert(t[i] == w[i]);
        }
        lemma_in_quotes(q, t);
        assert(line.drop_last() =~= seq![q] + t);
        assert(line.last() == w[w.len() - 1]);
        assert(t.push(w.last()) =~= w);
    }
}

/// Quotes keep together what they enclose, spaces too; between single quotes a
/// backslash stands for itself.
pub proof fn lemma_quoted(q: char, w: Seq<char>)
    requires
        q == '"' || q == '\'',
        w.len() > 0,
        forall|i: int| 0 <= i < w.len() ==> (#[trigger] w[i]) != q && (q == '"' ==> w[i] != '\\'),
    ensures
        tokens(seq![q] + w + seq![q]) == seq![w],
{
    lemma_in_quotes(q, w);
    let line = seq![q] + w + seq![q];
    assert(line.drop_last() =~= seq![q] + w);
    assert(line.last() == q);
    assert(reading(line).done.push(w) =~= seq![w]);
}

/// What the first word of a line asks for.
pub proof fn lemma_commands(t: Seq<Seq<char>>, c: Command)
    requires
        command_of(t, c),
    ensures
        c is Nothing <==> t.len() == 0,
        c is Quit <==> t.len() > 0 && (t[0] == "quit"@ || t[0] == "exit"@ || t[0] == "q"@),
        c is Help <==> t.len() > 0 && (t[0] == "help"@ || t[0] == "?"@),
        c is Clear <==> t.len() > 0 && t[0] == "clear"@,
        c is Status <==> t.len() > 0 && (t[0] == "status"@ || t[0] == "info"@),
        c matches Command::Args(v) ==> crate::table::name_views(v@) == mapped(t),
{
    reveal_strlit("quit");
    reveal_strlit("exit");
    reveal_strlit("q");
    reveal_strlit("help");
    reveal_strlit("?");
    reveal_strlit("clear");
    reveal_strlit("status");
    reveal_strlit("info");
    assert("quit"@.len() == 4 && "quit"@[0] == 'q');
    assert("exit"@.len() == 4 && "exit"@[0] == 'e');
    assert("q"@.len() == 1 && "q"@[0] == 'q');
    assert("help"@.len() == 4 && "help"@[0] == 'h');
    assert("?"@.len() == 1 && "?"@[0] == '?');
    assert("clear"@.len() == 5);
    assert("status"@.len() == 6);
    assert("info"@.len() == 4 && "info"@[0] == 'i');
}

/// Only the first word is turned into a flag: the others stay as they are, and a
/// first word that is a flag already stays too.
pub proof fn lemma_flags(t: Seq<Seq<char>>)
    requires
        t.len() > 0,
    ensures
        forall|i: int| 0 < i < t.len() ==> #[trigger] mapped(t)[i] == t[i],
        t[0] == "stats"@ ==> mapped(t).len() == t.len() + 1 && mapped(t)[0] == "--events"@ && mapped(t).last()
            == "--stats"@,
        t[0] != "stats"@ ==> mapped(t).len() == t.len() && (mapped(t)[0] == t[0] || mapped(t)[0] == "--"@ + t[0]),
        t[0].len() > 0 && t[0][0] == '-' ==> mapped(t) == t,
{
    if t[0].len() > 0 && t[0][0] == '-' {
        let head = before_equals(t[0]);
        assert(head[0] == '-');
        lemma_bare_first(head);
        reveal_strlit("stats");
        assert("stats"@[0] == 's');
    }
}

proof fn lemma_bare_first(s: Seq<char>)
    requires
        s.len() > 0,
        s[0] == '-',
    ensures
        !is_bare(s),
{
    reveal_strlit("events");
    reveal_strlit("names");
    reveal_strlit("threads");
    reveal_strlit("timeline");
    reveal_strlit("worst");
    reveal_strlit("task");
    reveal_strlit("function");
    reveal_strlit("find");
    reveal_strlit("stats");
    reveal_strlit("stacks");
    reveal_strlit("flame");
    reveal_strlit("compare");
    reveal_strlit("export");
    reveal_strlit("summary");
    reveal_strlit("json");
    reveal_strlit("throttle");
    reveal_strlit("sort");
    reveal_strlit("top");
    reveal_strlit("tid");
    reveal_strlit("pid");
    reveal_strlit("cat");
    reveal_strlit("around");
    reveal_strlit("window");
    reveal_strlit("bucket");
    reveal_strlit("min-dur");
    reveal_strlit("regex");
    reveal_strlit("full-args");
    assert("events"@[0] == 'e' && "names"@[0] == 'n' && "threads"@[0] == 't' && "timeline"@[0] == 't');
    assert("worst"@[0] == 'w' && "task"@[0] == 't' && "function"@[0] == 'f' && "find"@[0] == 'f');
    assert("stats"@[0] == 's' && "stacks"@[0] == 's' && "flame"@[0] == 'f' && "compare"@[0] == 'c');
    assert("export"@[0] == 'e' && "summary"@[0] == 's' && "json"@[0] == 'j' && "throttle"@[0] == 't');
    assert("sort"@[0] == 's' && "top"@[0] == 't' && "tid"@[0] == 't' && "pid"@[0] == 'p' && "cat"@[0] == 'c');
    assert("around"@[0] == 'a' && "window"@[0] == 'w' && "bucket"@[0] == 'b' && "min-dur"@[0] == 'm');
    assert("regex"@[0] == 'r' && "full-args"@[0] == 'f');
}

/// The words that may stand without dashes are turned into flags, alone or with
/// a value behind an equals sign.
pub proof fn lemma_bare_word(w: Seq<char>, value: Seq<char>, rest: Seq<Seq<char>>)
    requires
        ({
            ||| w == "events"@ || w == "names"@ || w == "threads"@ || w == "timeline"@ || w == "worst"@
            ||| w == "task"@ || w == "function"@ || w == "find"@ || w == "stacks"@ || w == "flame"@
            ||| w == "compare"@ || w == "export"@ || w == "summary"@ || w == "json"@ || w == "throttle"@
            ||| w == "sort"@ || w == "top"@ || w == "tid"@ || w == "pid"@ || w == "cat"@ || w == "around"@
            ||| w == "window"@ || w == "bucket"@ || w == "regex"@
        }),
        w != "stats"@,
        forall|i: int| 0 <= i < w.len() ==> (#[trigger] w[i]) != '=',
        w + seq!['='] + value != "stats"@,
    ensures
        mapped(seq![w] + rest) == seq!["--"@ + w] + rest,
        mapped(seq![w + seq!['='] + value] + rest) == seq!["--"@ + w + seq!['='] + value] + rest,
{
    lemma_before_equals(w, Seq::empty());
    lemma_before_equals(w, seq!['='] + value);
    assert(w + Seq::<char>::empty() =~= w);
    assert(w + (seq!['='] + value) =~= w + seq!['='] + value);
    assert((seq![w] + rest).update(0, "--"@ + w) =~= seq!["--"@ + w] + rest);
    assert((seq![w + seq!['='] + value] + rest).update(0, "--"@ + (w + seq!['='] + value)) =~= seq!["--"@ + w + seq![
        '=',
    ] + value] + rest) by {
        assert("--"@ + (w + seq!['='] + value) =~= "--"@ + w + seq!['='] + value);
    }
}

proof fn lemma_before_equals(w: Seq<char>, rest: Seq<char>)
    requires
        forall|i: int| 0 <= i < w.len() ==> (#[trigger] w[i]) != '=',
        rest.len() == 0 || rest[0] == '=',
    ensures
        before_equals(w + rest) == w,
    decreases w.len(),
{
    let s = w + rest;
    if w.len() == 0 {
        assert(s =~= rest);
        assert(before_equals(s) =~= w);
    } else {
        assert(s[0] == w[0]);
        assert(s.drop_first() =~= w.drop_first() + rest);
        assert forall|i: int| 0 <= i < w.drop_first().len() implies (#[trigger] w.drop_first()[i]) != '=' by {
            assert(w[i + 1] != '=');
        }
        lemma_before_equals(w.drop_first(), rest);
        assert(seq![w[0]] + w.drop_first() =~= w);
    }
}

/// The first that is asked for is done, in this order.
pub proof fn lemma_actions(a: Asked)
    ensures
        action_of(a) is Inspect <==> a.inspects,
        action_of(a) is Compare <==> !a.inspects && a.compare,
        action_of(a) is Export <==> !a.inspects && !a.compare && a.export,
        action_of(a) is Summary <==> !a.inspects && !a.compare && !a.export && a.summary,
        action_of(a) is Throttle <==> !a.inspects && !a.compare && !a.export && !a.summary && a.throttle,
        action_of(a) is Idle <==> !a.inspects && !a.compare && !a.export && !a.summary && !a.throttle && !a.word,
{
}

/// Which keys lead to a step: any takes a message away, and without one each
/// step has its keys.
pub proof fn lemma_keys(message: bool, tabs: usize, key: Key, i: usize)
    ensures
        step_of(message, tabs, key) is Dismiss <==> message,
        step_of(message, tabs, key) is Quit <==> !message && (key is Esc || key == Key::Char('q', true) || key
            == Key::Char('q', false) || key == Key::Char('c', true)),
        step_of(message, tabs, key) is Export <==> !message && (key == Key::Char('e', true) || key == Key::Char(
            'e',
            false,
        )),
        step_of(message, tabs, key) is Throttle <==> !message && (key == Key::Char('t', true) || key == Key::Char(
            't',
            false,
        )),
        step_of(message, tabs, key) is NextTab <==> !message && key is Tab,
        step_of(message, tabs, key) is PrevTab <==> !message && key is BackTab,
        step_of(message, tabs, key) is Top <==> !message && (key == Key::Char('g', true) || key == Key::Char(
            'g',
            false,
        )),
        step_of(message, tabs, key) is Bottom <==> !message && (key == Key::Char('G', true) || key == Key::Char(
            'G',
            false,
        )),
        step_of(message, tabs, key) == Step::ScrollDown(1) <==> !message && (key is Down || key == Key::Char(
            'j',
            true,
        ) || key == Key::Char('j', false)),
        step_of(message, tabs, key) == Step::ScrollUp(1) <==> !message && (key is Up || key == Key::Char('k', true)
            || key == Key::Char('k', false)),
        step_of(message, tabs, key) == Step::ScrollDown(20) <==> !message && key == Key::Char('d', true),
        step_of(message, tabs, key) == Step::ScrollUp(20) <==> !message && key == Key::Char('u', true),
        step_of(message, tabs, key) == Step::Select(i) <==> !message && i < tabs && i < 5 && (key matches Key::Char(
            c,
            _,
        ) && c as int == '1' as int + i),
{
}

/// How the order is named; by time where it is not.
pub proof fn lemma_sort_word(word: Option<Seq<char>>)
    ensures
        sort_named(word) is Dur <==> word == Some("dur"@),
        sort_named(word) is Name <==> word == Some("name"@),
        sort_named(word) is Count <==> word == Some("count"@),
        word is None ==> sort_named(word) is Ts,
{
    reveal_strlit("dur");
    reveal_strlit("name");
    reveal_strlit("count");
    assert("dur"@.len() == 3 && "name"@.len() == 4 && "count"@.len() == 5);
}

/// Something is looked into exactly where one of the lists or reports is asked
/// for.
pub proof fn lemma_inspects(o: Options)
    ensures
        !o.inspects() <==> o.events is None && o.function is None && o.find is None && o.anchor is None && !o.names
            && !o.threads && !o.stacks && !o.flame && !o.task && !o.timeline && !o.worst && !o.jank && !o.memory
            && !o.input && !o.async_tasks && !o.delta && !o.calltree && !o.gc && !o.frames,
{
}

/// The characters are white.
pub open spec fn all_white(s: Seq<char>) -> bool {
    forall|i: int| 0 <= i < s.len() ==> is_white(#[trigger] s[i])
}

/// Space and the control characters from tab to carriage return are white,
/// other ASCII characters are not.
pub proof fn lemma_white(c: char)
    requires
        c as u32 <= 127,
    ensures
        is_white(c) <==> c == ' ' || c == '\t' || c == '\n' || c == '\r' || c as u32 == 11 || c as u32 == 12,
{
}

proof fn lemma_trimmed_start(s: Seq<char>) -> (w: Seq<char>)
    ensures
        s == w + trimmed_start(s),
        all_white(w),
        trimmed_start(s).len() > 0 ==> !is_white(trimmed_start(s)[0]),
    decreases s.len(),
{
    if s.len() > 0 && is_white(s[0]) {
        let v = lemma_trimmed_start(s.drop_first());
        let w = seq![s[0]] + v;
        assert(trimmed_start(s) == trimmed_start(s.drop_first()));
        assert(s =~= seq![s[0]] + s.drop_first());
        assert(s =~= w + trimmed_start(s));
        assert forall|i: int| 0 <= i < w.len() implies is_white(#[trigger] w[i]) by {
            if i > 0 {
                assert(w[i] == v[i - 1]);
            }
        }
        w
    } else {
        assert(s =~= Seq::<char>::empty() + s);
        Seq::empty()
    }
}

proof fn lemma_trimmed_end(s: Seq<char>) -> (w: Seq<char>)
    ensures
        s == trimmed_end(s) + w,
        all_white(w),
        trimmed_end(s).len() > 0 ==> !is_white(trimmed_end(s).last()) && trimmed_end(s)[0] == s[0],
    decreases s.len(),
{
    if s.len() > 0 && is_white(s.last()) {
        let v = lemma_trimmed_end(s.drop_last());
        let w = v.push(s.last());
        assert(trimmed_end(s) == trimmed_end(s.drop_last()));
        assert(s =~= s.drop_last().push(s.last()));
        assert(s =~= trimmed_end(s) + w);
        assert forall|i: int| 0 <= i < w.len() implies is_white(#[trigger] w[i]) by {
            if i < v.len() {
                assert(w[i] == v[i]);
            }
        }
        w
    } else {
        assert(s =~= s + Seq::<char>::empty());
        Seq::empty()
    }
}

/// Trimming takes white characters off both ends, and all of them.
pub proof fn lemma_trimmed(s: Seq<char>)
    ensures
        exists|a: Seq<char>, b: Seq<char>| s == #[trigger] (a + trimmed(s) + b) && all_white(a) && all_white(b),
        trimmed(s).len() > 0 ==> !is_white(trimmed(s)[0]) && !is_white(trimmed(s).last()),
{
    let a = lemma_trimmed_start(s);
    let b = lemma_trimmed_end(trimmed_start(s));
    assert(a + trimmed(s) + b =~= a + (trimmed(s) + b));
}

proof fn lemma_names_second(a: Seq<char>, b: Seq<char>, from: int, i: int)
    requires
        0 <= from <= i <= b.len(),
    ensures
        names_from(a + seq![','] + b, a.len() + 1 + from, a.len() + 1 + i) == names_from(b, from, i),
    decreases b.len() - i,
{
    let s = a + seq![','] + b;
    let n = a.len() + 1;
    assert(s.subrange(n + from, s.len() as int) =~= b.subrange(from, b.len() as int));
    if i < b.len() {
        assert(s[n + i] == b[i]);
        assert(s.subrange(n + from, n + i) =~= b.subrange(from, i));
        if b[i] == ',' {
            lemma_names_second(a, b, i + 1, i + 1);
        } else {
            lemma_names_second(a, b, from, i + 1);
        }
    }
}

proof fn lemma_names_first(a: Seq<char>, b: Seq<char>, from: int, i: int)
    requires
        0 <= from <= i <= a.len(),
    ensures
        names_from(a + seq![','] + b, from, i) == names_from(a, from, i) + names_in(b),
    decreases a.len() - i,
{
    let s = a + seq![','] + b;
    if i < a.len() {
        assert(s[i] == a[i]);
        assert(s.subrange(from, i) =~= a.subrange(from, i));
        if a[i] == ',' {
            lemma_names_first(a, b, i + 1, i + 1);
            let piece = with_piece(Seq::empty(), a.subrange(from, i));
            assert(piece + (names_from(a, i + 1, i + 1) + names_in(b)) =~= piece + names_from(a, i + 1, i + 1)
                + names_in(b));
        } else {
            lemma_names_first(a, b, from, i + 1);
        }
    } else {
        assert(s[i] == ',');
        assert(s.subrange(from, i) =~= a.subrange(from, a.len() as int));
        lemma_names_second(a, b, 0, 0);
    }
}

/// A comma stands between names: the names of two parts are those of the first
/// and then those of the second.
pub proof fn lemma_names_joined(a: Seq<char>, b: Seq<char>)
    ensures
        names_in(a + seq![','] + b) == names_in(a) + names_in(b),
{
    lemma_names_first(a, b, 0, 0);
}

proof fn lemma_no_comma(s: Seq<char>, i: int)
    requires
        0 <= i <= s.len(),
        forall|j: int| 0 <= j < s.len() ==> (#[trigger] s[j]) != ',',
    ensures
        names_from(s, 0, i) == with_piece(Seq::empty(), s),
    decreases s.len() - i,
{
    if i < s.len() {
        assert(s[i] != ',');
        lemma_no_comma(s, i + 1);
    } else {
        assert(s.subrange(0, s.len() as int) =~= s);
    }
}

/// A text without a comma is one name, without the white around it, or none
/// where nothing else is in it.
pub proof fn lemma_one_name(s: Seq<char>)
    requires
        forall|j: int| 0 <= j < s.len() ==> (#[trigger] s[j]) != ',',
    ensures
        trimmed(s).len() > 0 ==> names_in(s) == seq![trimmed(s)],
        trimmed(s).len() == 0 ==> names_in(s).len() == 0,
{
    lemma_no_comma(s, 0);
    assert(Seq::<Seq<char>>::empty().push(trimmed(s)) =~= seq![trimmed(s)]);
}

/// What stands in a cell: a text as it is, nothing where the value is missing or
/// null, and else the value in short form.
pub open spec fn cell_of(v: Option<JsonView>, t: Seq<char>) -> bool {
    match v {
        None => t.len() == 0,
        Some(JsonView::Null) => t.len() == 0,
        Some(JsonView::Str(s)) => t == s,
        Some(x) => t == compact(x),
    }
}

/// The cells of a row follow the columns of the table, with commas between.
pub proof fn lemma_cells(m: Seq<(String, Json)>, row: Json, n: int) -> (t: Seq<char>)
    requires
        0 <= n < m.len(),
    ensures
        cell_of(member(row@, m[n].0@), t),
        n == 0 ==> cells(m, row, 1) == field_text(t) && header(m, 1) == field_text(m[0].0@),
        n > 0 ==> cells(m, row, n + 1) == cells(m, row, n) + ","@ + field_text(t) && header(m, n + 1) == header(m, n)
            + ","@ + field_text(m[n].0@),
{
    value_text(member(row@, m[n].0@))
}

/// One more row of the same columns adds a line, and changes none before.
pub proof fn lemma_one_more_row(rows: Seq<Json>, m: Vec<(String, Json)>, row: Json)
    requires
        rows.len() > 0,
        rows[0] == Json::Obj(m),
        row is Obj,
    ensures
        csv_text(rows.push(row)) == csv_text(rows) + cells(m@, row, m@.len() as int) + "\n"@,
        csv_text(seq![Json::Obj(m)]) == header(m@, m@.len() as int) + "\n"@ + cells(
            m@,
            Json::Obj(m),
            m@.len() as int,
        ) + "\n"@,
{
    let more = rows.push(row);
    let n = rows.len() as int;
    assert(more[0] == rows[0]);
    lemma_lines_same(m@, rows, more, n);
    assert(more[n] == row);
    let head = header(m@, m@.len() as int) + "\n"@;
    assert(head + (lines(m@, rows, n) + cells(m@, row, m@.len() as int) + "\n"@) =~= head + lines(m@, rows, n)
        + cells(m@, row, m@.len() as int) + "\n"@);
    let one = seq![Json::Obj(m)];
    assert(lines(m@, one, 0) =~= Seq::<char>::empty());
    assert(lines(m@, one, 1) =~= cells(m@, Json::Obj(m), m@.len() as int) + "\n"@);
    assert(one[0] == Json::Obj(m));
    assert(head + (cells(m@, Json::Obj(m), m@.len() as int) + "\n"@) =~= head + cells(
        m@,
        Json::Obj(m),
        m@.len() as int,
    ) + "\n"@);
}

proof fn lemma_lines_same(m: Seq<(String, Json)>, a: Seq<Json>, b: Seq<Json>, n: int)
    requires
        0 <= n <= a.len(),
        n <= b.len(),
        forall|i: int| 0 <= i < n ==> a[i] == #[trigger] b[i],
    ensures
        lines(m, a, n) == lines(m, b, n),
    decreases n,
{
    if n > 0 {
        assert(a[n - 1] == b[n - 1]);
        lemma_lines_same(m, a, b, n - 1);
    }
}

} // verus!
