//! The interactive prompt: how a line is read, and what it asks for.

use vstd::prelude::*;
use vstd::string::StringExecFns;
use crate::table::name_views;
use crate::text::{chars_of, same, string_of};

verus! {

/// What is known while a line is read: the tokens so far, the one that is being
/// read, the quotes that are open, and whether a backslash came just before.
pub struct Reading {
    pub done: Seq<Seq<char>>,
    pub cur: Seq<char>,
    pub single: bool,
    pub double: bool,
    pub escape: bool,
}

/// Nothing was read.
pub open spec fn fresh() -> Reading {
    Reading { done: Seq::empty(), cur: Seq::empty(), single: false, double: false, escape: false }
}

/// The tokens with the one that was being read, unless it is empty.
pub open spec fn closed(r: Reading) -> Seq<Seq<char>> {
    if r.cur.len() == 0 {
        r.done
    } else {
        r.done.push(r.cur)
    }
}

/// One more character. A backslash takes the next one as it is, except within
/// single quotes; quotes group; blanks outside of them separate.
pub open spec fn read_step(r: Reading, c: char) -> Reading {
    if r.escape {
        Reading { cur: r.cur.push(c), escape: false, ..r }
    } else if c == '\\' && !r.single {
        Reading { escape: true, ..r }
    } else if c == '\'' && !r.double {
        Reading { single: !r.single, ..r }
    } else if c == '"' && !r.single {
        Reading { double: !r.double, ..r }
    } else if (c == ' ' || c == '\t') && !r.single && !r.double {
        Reading { done: closed(r), cur: Seq::empty(), ..r }
    } else {
        Reading { cur: r.cur.push(c), ..r }
    }
}

/// What is known after a line was read.
pub open spec fn reading(line: Seq<char>) -> Reading
    decreases line.len(),
{
    if line.len() == 0 {
        fresh()
    } else {
        read_step(reading(line.drop_last()), line.last())
    }
}

/// The tokens of a line.
pub open spec fn tokens(line: Seq<char>) -> Seq<Seq<char>> {
    closed(reading(line))
}

/// Split a line into tokens, with quotes and backslashes.
pub fn tokenize(line: &str) -> (out: Vec<String>)
    ensures
        name_views(out@) == tokens(line@),
{
    let c = chars_of(line);
    let mut out: Vec<String> = Vec::new();
    let mut cur = String::new();
    let mut single = false;
    let mut double = false;
    let mut escape = false;
    let mut i: usize = 0;
    proof {
        assert(c@.take(0) =~= Seq::<char>::empty());
        assert(name_views(out@) =~= Seq::<Seq<char>>::empty());
        assert(cur@ =~= Seq::<char>::empty());
    }
    while i < c.len()
        invariant
            i <= c@.len(),
            reading(c@.take(i as int)) == (Reading {
                done: name_views(out@),
                cur: cur@,
                single,
                double,
                escape,
            }),
        decreases c@.len() - i,
    {
        assert(c@.take(i + 1).drop_last() =~= c@.take(i as int));
        let x = c[i];
        if escape {
            cur.push(x);
            escape = false;
        } else if x == '\\' && !single {
            escape = true;
        } else if x == '\'' && !double {
            single = !single;
        } else if x == '"' && !single {
            double = !double;
        } else if (x == ' ' || x == '\t') && !single && !double {
            if !cur.as_str().is_empty() {
                let ghost before = out@;
                let ghost v = cur@;
                out.push(cur);
                assert(name_views(out@) =~= name_views(before).push(v));
                cur = String::new();
            }
            assert(cur@ =~= Seq::<char>::empty());
        } else {
            cur.push(x);
        }
        i = i + 1;
    }
    assert(c@.take(c@.len() as int) =~= c@);
    if !cur.as_str().is_empty() {
        let ghost before = out@;
        let ghost v = cur@;
        out.push(cur);
        assert(name_views(out@) =~= name_views(before).push(v));
    }
    out
}

/// The text with a backslash before each character.
pub open spec fn backslashed(s: Seq<char>) -> Seq<char>
    decreases s.len(),
{
    if s.len() == 0 {
        Seq::empty()
    } else {
        backslashed(s.drop_last()).push('\\').push(s.last())
    }
}

proof fn lemma_reading_backslashed(s: Seq<char>)
    ensures
        reading(backslashed(s)) == (Reading { cur: s, ..fresh() }),
    decreases s.len(),
{
    if s.len() > 0 {
        let t = s.drop_last();
        lemma_reading_backslashed(t);
        let a = backslashed(t);
        assert(a.push('\\').push(s.last()).drop_last() =~= a.push('\\'));
        assert(a.push('\\').drop_last() =~= a);
        assert(t.push(s.last()) =~= s);
        let r = reading(a);
        assert(reading(a.push('\\')) == read_step(r, '\\'));
        assert(reading(backslashed(s)) == read_step(read_step(r, '\\'), s.last()));
    } else {
        assert(reading(backslashed(s)).cur =~= s);
    }
}

/// Any text can be one token: with a backslash before each character it is read
/// back as it was.
pub proof fn lemma_token_read_back(s: Seq<char>)
    requires
        s.len() > 0,
    ensures
        tokens(backslashed(s)) == seq![s],
{
    lemma_reading_backslashed(s);
    assert(Seq::<Seq<char>>::empty().push(s) =~= seq![s]);
}

/// No token is empty.
pub proof fn lemma_tokens_not_empty(line: Seq<char>, k: int)
    requires
        0 <= k < tokens(line).len(),
    ensures
        tokens(line)[k].len() > 0,
    decreases line.len(),
{
    lemma_done_not_empty(line);
}

proof fn lemma_done_not_empty(line: Seq<char>)
    ensures
        forall|k: int| 0 <= k < reading(line).done.len() ==> (#[trigger] reading(line).done[k]).len() > 0,
    decreases line.len(),
{
    if line.len() > 0 {
        lemma_done_not_empty(line.drop_last());
        let r = reading(line.drop_last());
        let n = reading(line);
        assert forall|k: int| 0 <= k < n.done.len() implies (#[trigger] n.done[k]).len() > 0 by {
            if k < r.done.len() {
                assert(n.done[k] == r.done[k]);
            }
        }
    }
}

/// The word stands for a flag of that name.
pub open spec fn is_bare(s: Seq<char>) -> bool {
    ||| s == "events"@
    ||| s == "names"@
    ||| s == "threads"@
    ||| s == "timeline"@
    ||| s == "worst"@
    ||| s == "task"@
    ||| s == "function"@
    ||| s == "find"@
    ||| s == "stats"@
    ||| s == "stacks"@
    ||| s == "flame"@
    ||| s == "compare"@
    ||| s == "export"@
    ||| s == "summary"@
    ||| s == "json"@
    ||| s == "throttle"@
    ||| s == "sort"@
    ||| s == "top"@
    ||| s == "tid"@
    ||| s == "pid"@
    ||| s == "cat"@
    ||| s == "around"@
    ||| s == "window"@
    ||| s == "bucket"@
    ||| s == "min-dur"@
    ||| s == "regex"@
    ||| s == "full-args"@
}

fn bare(s: &str) -> (r: bool)
    ensures
        r == is_bare(s@),
{
    same(s, "events")
        || same(s, "names")
        || same(s, "threads")
        || same(s, "timeline")
        || same(s, "worst")
        || same(s, "task")
        || same(s, "function")
        || same(s, "find")
        || same(s, "stats")
        || same(s, "stacks")
        || same(s, "flame")
        || same(s, "compare")
        || same(s, "export")
        || same(s, "summary")
        || same(s, "json")
        || same(s, "throttle")
        || same(s, "sort")
        || same(s, "top")
        || same(s, "tid")
        || same(s, "pid")
        || same(s, "cat")
        || same(s, "around")
        || same(s, "window")
        || same(s, "bucket")
        || same(s, "min-dur")
        || same(s, "regex")
        || same(s, "full-args")
}

/// What stands before the first equals sign; all of it where there is none.
pub open spec fn before_equals(s: Seq<char>) -> Seq<char>
    decreases s.len(),
{
    if s.len() == 0 || s[0] == '=' {
        Seq::empty()
    } else {
        seq![s[0]] + before_equals(s.drop_first())
    }
}

fn head_of(s: &str) -> (r: String)
    ensures
        r@ == before_equals(s@),
{
    let c = chars_of(s);
    let mut i: usize = 0;
    assert(c@.take(0) + before_equals(c@.skip(0)) =~= before_equals(c@)) by {
        assert(c@.skip(0) =~= c@);
    }
    while i < c.len() && c[i] != '='
        invariant
            i <= c@.len(),
            c@.take(i as int) + before_equals(c@.skip(i as int)) == before_equals(c@),
        decreases c@.len() - i,
    {
        proof {
            assert(c@.skip(i as int).drop_first() =~= c@.skip(i + 1));
            assert(c@.take(i + 1) + before_equals(c@.skip(i + 1)) =~= c@.take(i as int)
                + before_equals(c@.skip(i as int)));
        }
        i = i + 1;
    }
    let r = string_of(&c, 0, i);
    assert(r@ =~= c@.take(i as int) + before_equals(c@.skip(i as int)));
    r
}

/// The tokens with the first word, where it stands for a flag, written as that:
/// `events RunTask` as `--events RunTask`, `export=out.md` as
/// `--export=out.md`, and `stats <names>` as `--events <names> --stats`.
pub open spec fn mapped(t: Seq<Seq<char>>) -> Seq<Seq<char>> {
    if t.len() == 0 {
        t
    } else if t[0] == "stats"@ {
        t.update(0, "--events"@).push("--stats"@)
    } else if is_bare(before_equals(t[0])) {
        t.update(0, "--"@ + t[0])
    } else {
        t
    }
}

/// Write the first word, where it stands for a flag, as that.
pub fn map_bare(t: &mut Vec<String>)
    ensures
        name_views(final(t)@) == mapped(name_views(old(t)@)),
{
    if t.len() == 0 {
        assert(name_views(t@) =~= mapped(name_views(t@)));
        return;
    }
    let ghost before = name_views(t@);
    assert(before[0] == t@[0]@);
    if same(t[0].as_str(), "stats") {
        t.set(0, "--events".to_owned());
        t.push("--stats".to_owned());
        assert(name_views(t@) =~= mapped(before));
        return;
    }
    if bare(head_of(t[0].as_str()).as_str()) {
        let mut s = String::new();
        s.append("--");
        s.append(t[0].as_str());
        assert(s@ =~= "--"@ + before[0]);
        t.set(0, s);
        assert(name_views(t@) =~= mapped(before));
    }
}

/// What a line asks for.
pub enum Command {
    /// The line is empty.
    Nothing,
    Quit,
    Help,
    Clear,
    Status,
    /// Arguments as on the command line.
    Args(Vec<String>),
}

/// What the tokens of a line ask for.
pub open spec fn command_of(t: Seq<Seq<char>>, c: Command) -> bool {
    if t.len() == 0 {
        c is Nothing
    } else if t[0] == "quit"@ || t[0] == "exit"@ || t[0] == "q"@ {
        c is Quit
    } else if t[0] == "help"@ || t[0] == "?"@ {
        c is Help
    } else if t[0] == "clear"@ {
        c is Clear
    } else if t[0] == "status"@ || t[0] == "info"@ {
        c is Status
    } else {
        c matches Command::Args(v) && name_views(v@) == mapped(t)
    }
}

/// Read a line of the prompt.
pub fn read_command(line: &str) -> (c: Command)
    ensures
        command_of(tokens(line@), c),
{
    let mut t = tokenize(line);
    if t.len() == 0 {
        return Command::Nothing;
    }
    assert(tokens(line@)[0] == t@[0]@);
    let first = t[0].as_str();
    if same(first, "quit") || same(first, "exit") || same(first, "q") {
        Command::Quit
    } else if same(first, "help") || same(first, "?") {
        Command::Help
    } else if same(first, "clear") {
        Command::Clear
    } else if same(first, "status") || same(first, "info") {
        Command::Status
    } else {
        map_bare(&mut t);
        Command::Args(t)
    }
}

/// The flags of a parsed line that decide what is done.
#[derive(Clone, Copy)]
pub struct Asked {
    pub inspects: bool,
    pub compare: bool,
    pub export: bool,
    pub summary: bool,
    pub throttle: bool,
    /// A word that stands for no flag.
    pub word: bool,
}

/// What is done with a parsed line.
#[derive(Clone, Copy, PartialEq, Eq, Structural)]
pub enum Action {
    Inspect,
    Compare,
    Export,
    Summary,
    Throttle,
    Unknown,
    Idle,
}

/// The first that is asked for, in this order.
pub open spec fn action_of(a: Asked) -> Action {
    if a.inspects {
        Action::Inspect
    } else if a.compare {
        Action::Compare
    } else if a.export {
        Action::Export
    } else if a.summary {
        Action::Summary
    } else if a.throttle {
        Action::Throttle
    } else if a.word {
        Action::Unknown
    } else {
        Action::Idle
    }
}

/// Decide what is done with a parsed line.
pub fn decide(a: Asked) -> (r: Action)
    ensures
        r == action_of(a),
{
    if a.inspects {
        Action::Inspect
    } else if a.compare {
        Action::Compare
    } else if a.export {
        Action::Export
    } else if a.summary {
        Action::Summary
    } else if a.throttle {
        Action::Throttle
    } else if a.word {
        Action::Unknown
    } else {
        Action::Idle
    }
}

} // verus!
