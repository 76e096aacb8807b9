//! The interactive prompt.

use chperf::query::keys::{press, Key, Step};
use chperf::query::options::{split_names, trim};
use chperf::query::repl::{decide, map_bare, read_command, tokenize, Action, Asked, Command};

fn strings(v: &[&str]) -> Vec<String> {
    v.iter().map(|s| s.to_string()).collect()
}

#[test]
fn lines_are_split_into_tokens() {
    assert_eq!(tokenize("events RunTask  --top\t5"), strings(&["events", "RunTask", "--top", "5"]));
    assert_eq!(tokenize("find 'a b' \"c 'd\" e\\ f"), strings(&["find", "a b", "c 'd", "e f"]));
    assert_eq!(tokenize("'a\\b'"), strings(&["a\\b"]));
    assert_eq!(tokenize("\"a\\\"b\""), strings(&["a\"b"]));
    assert_eq!(tokenize("   "), Vec::<String>::new());
    assert_eq!(tokenize("'' x"), strings(&["x"]));
    assert_eq!(tokenize("\\'\\ \\\\"), strings(&["' \\"]));
}

fn mapped(v: &[&str]) -> Vec<String> {
    let mut t = strings(v);
    map_bare(&mut t);
    t
}

#[test]
fn the_first_word_stands_for_a_flag() {
    assert_eq!(mapped(&["events", "RunTask"]), strings(&["--events", "RunTask"]));
    assert_eq!(mapped(&["export=out.md"]), strings(&["--export=out.md"]));
    assert_eq!(mapped(&["stats", "A,B"]), strings(&["--events", "A,B", "--stats"]));
    assert_eq!(mapped(&["nonsense", "events"]), strings(&["nonsense", "events"]));
    assert_eq!(mapped(&["min-dur=5"]), strings(&["--min-dur=5"]));
    assert_eq!(mapped(&[]), Vec::<String>::new());
}

#[test]
fn commands_are_recognized() {
    assert!(matches!(read_command(" "), Command::Nothing));
    assert!(matches!(read_command("q"), Command::Quit));
    assert!(matches!(read_command("exit now"), Command::Quit));
    assert!(matches!(read_command("?"), Command::Help));
    assert!(matches!(read_command("clear"), Command::Clear));
    assert!(matches!(read_command("info"), Command::Status));
    match read_command("find 'a b'") {
        Command::Args(v) => assert_eq!(v, strings(&["--find", "a b"])),
        _ => panic!("arguments"),
    }
}

#[test]
fn actions_have_an_order() {
    let none = Asked {
        inspects: false,
        compare: false,
        export: false,
        summary: false,
        throttle: false,
        word: false,
    };
    assert!(decide(none) == Action::Idle);
    assert!(decide(Asked { word: true, ..none }) == Action::Unknown);
    assert!(decide(Asked { throttle: true, word: true, ..none }) == Action::Throttle);
    assert!(decide(Asked { summary: true, throttle: true, ..none }) == Action::Summary);
    assert!(decide(Asked { export: true, summary: true, ..none }) == Action::Export);
    assert!(decide(Asked { compare: true, export: true, ..none }) == Action::Compare);
    assert!(decide(Asked { inspects: true, compare: true, ..none }) == Action::Inspect);
}

#[test]
fn lists_of_names_are_split_at_commas() {
    assert_eq!(split_names(" RunTask, ,GPUTask ,"), strings(&["RunTask", "GPUTask"]));
    assert_eq!(split_names(""), Vec::<String>::new());
    assert_eq!(trim("\u{3000} a b\n"), "a b");
}

#[test]
fn keys_do_what_they_stand_for() {
    let on = |c: char, control: bool| press(false, 2, Key::Char(c, control));
    assert!(on('q', false) == Step::Quit && on('c', true) == Step::Quit);
    assert!(on('c', false) == Step::Nothing);
    assert!(on('d', true) == Step::ScrollDown(20) && on('d', false) == Step::Nothing);
    assert!(on('u', true) == Step::ScrollUp(20));
    assert!(on('j', false) == Step::ScrollDown(1) && press(false, 2, Key::Up) == Step::ScrollUp(1));
    assert!(on('g', false) == Step::Top && on('G', false) == Step::Bottom);
    assert!(on('2', false) == Step::Select(1) && on('3', false) == Step::Nothing);
    assert!(press(false, 2, Key::Tab) == Step::NextTab);
    assert!(press(true, 2, Key::Esc) == Step::Dismiss);
}
