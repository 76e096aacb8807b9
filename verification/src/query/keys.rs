//! What the keys of a full-screen session do.

use vstd::prelude::*;

verus! {

/// A key that was pressed.
#[derive(Clone, Copy)]
pub enum Key {
    /// A character, with the control key held down or not.
    Char(char, bool),
    Esc,
    Tab,
    BackTab,
    Down,
    Up,
    Other,
}

/// What is done on a key.
#[derive(Clone, Copy, PartialEq, Eq, Structural)]
pub enum Step {
    /// Take the message off the screen.
    Dismiss,
    Quit,
    Export,
    NextTab,
    PrevTab,
    Throttle,
    ScrollDown(usize),
    ScrollUp(usize),
    Top,
    Bottom,
    /// Show the tab at that place, from its top.
    Select(usize),
    Nothing,
}

/// Which tab a digit stands for.
pub open spec fn tab_of(c: char) -> Option<usize> {
    if c == '1' {
        Some(0)
    } else if c == '2' {
        Some(1)
    } else if c == '3' {
        Some(2)
    } else if c == '4' {
        Some(3)
    } else if c == '5' {
        Some(4)
    } else {
        None
    }
}

/// What is done on a character.
pub open spec fn char_step(c: char, control: bool, tabs: usize) -> Step {
    if c == 'q' || c == 'c' && control {
        Step::Quit
    } else if c == 'e' {
        Step::Export
    } else if c == 't' {
        Step::Throttle
    } else if c == 'j' {
        Step::ScrollDown(1)
    } else if c == 'k' {
        Step::ScrollUp(1)
    } else if c == 'd' && control {
        Step::ScrollDown(20)
    } else if c == 'u' && control {
        Step::ScrollUp(20)
    } else if c == 'g' {
        Step::Top
    } else if c == 'G' {
        Step::Bottom
    } else {
        match tab_of(c) {
            Some(i) => if i < tabs {
                Step::Select(i)
            } else {
                Step::Nothing
            },
            None => Step::Nothing,
        }
    }
}

/// What is done on a key: while a message is shown, any key takes it off.
pub open spec fn step_of(message: bool, tabs: usize, key: Key) -> Step {
    if message {
        Step::Dismiss
    } else {
        match key {
            Key::Char(c, control) => char_step(c, control, tabs),
            Key::Esc => Step::Quit,
            Key::Tab => Step::NextTab,
            Key::BackTab => Step::PrevTab,
            Key::Down => Step::ScrollDown(1),
            Key::Up => Step::ScrollUp(1),
            Key::Other => Step::Nothing,
        }
    }
}

fn on_char(c: char, control: bool, tabs: usize) -> (r: Step)
    ensures
        r == char_step(c, control, tabs),
{
    if c == 'q' || c == 'c' && control {
        Step::Quit
    } else if c == 'e' {
        Step::Export
    } else if c == 't' {
        Step::Throttle
    } else if c == 'j' {
        Step::ScrollDown(1)
    } else if c == 'k' {
        Step::ScrollUp(1)
    } else if c == 'd' && control {
        Step::ScrollDown(20)
    } else if c == 'u' && control {
        Step::ScrollUp(20)
    } else if c == 'g' {
        Step::Top
    } else if c == 'G' {
        Step::Bottom
    } else if c == '1' && tabs > 0 {
        Step::Select(0)
    } else if c == '2' && tabs > 1 {
        Step::Select(1)
    } else if c == '3' && tabs > 2 {
        Step::Select(2)
    } else if c == '4' && tabs > 3 {
        Step::Select(3)
    } else if c == '5' && tabs > 4 {
        Step::Select(4)
    } else {
        Step::Nothing
    }
}

/// Decide what is done on a key.
pub fn press(message: bool, tabs: usize, key: Key) -> (r: Step)
    ensures
        r == step_of(message, tabs, key),
{
    if message {
        return Step::Dismiss;
    }
    match key {
        Key::Char(c, control) => on_char(c, control, tabs),
        Key::Esc => Step::Quit,
        Key::Tab => Step::NextTab,
        Key::BackTab => Step::PrevTab,
        Key::Down => Step::ScrollDown(1),
        Key::Up => Step::ScrollUp(1),
        Key::Other => Step::Nothing,
    }
}

} // verus!
