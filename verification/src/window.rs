//! What the window does with files it is asked to open, and when it is
//! asked to close: with unsaved documents the user is asked first, and the
//! answer decides what is done before closing.

use vstd::prelude::*;
use crate::text::{is_blank, trimmed};

verus! {

/// The answer to a close request.
#[derive(Debug, Clone, Copy, PartialEq, Eq, Structural)]
pub enum CloseDecision {
    /// Let the window close.
    Proceed,
    /// Keep it open and ask what to do with the documents.
    Ask,
}

/// A close request closes at once when the user already answered, or when
/// both documents are blank; otherwise the user is asked.
pub fn on_close_request(confirmed: bool, left: &str, right: &str) -> (d: CloseDecision)
    ensures
        d == (if confirmed || (trimmed(left@).len() == 0 && trimmed(right@).len() == 0) {
            CloseDecision::Proceed
        } else {
            CloseDecision::Ask
        }),
{
    if confirmed {
        return CloseDecision::Proceed;
    }
    if is_blank(left) && is_blank(right) {
        CloseDecision::Proceed
    } else {
        CloseDecision::Ask
    }
}

/// What the user chose in the closing dialog.
#[derive(Debug, Clone, Copy, PartialEq, Eq, Structural)]
pub enum CloseChoice {
    Cancel,
    SaveHistory,
    ExportTxt,
    ExportHtml,
    CloseWithoutSaving,
}

/// What to do for a choice, and whether the window then closes (every
/// choice but cancelling closes it).
pub open spec fn closes_after(c: CloseChoice) -> bool {
    c != CloseChoice::Cancel
}

/// The choice a dialog response names: `save_history`, `export_txt`,
/// `export_html` and `close`; any other response cancels.
pub open spec fn choice_named(response: Seq<char>) -> CloseChoice {
    if response == "save_history"@ {
        CloseChoice::SaveHistory
    } else if response == "export_txt"@ {
        CloseChoice::ExportTxt
    } else if response == "export_html"@ {
        CloseChoice::ExportHtml
    } else if response == "close"@ {
        CloseChoice::CloseWithoutSaving
    } else {
        CloseChoice::Cancel
    }
}

/// The choice a dialog response names.
pub fn close_choice(response: &str) -> (c: CloseChoice)
    ensures
        c == choice_named(response@),
{
    if crate::text::str_eq(response, "save_history") {
        CloseChoice::SaveHistory
    } else if crate::text::str_eq(response, "export_txt") {
        CloseChoice::ExportTxt
    } else if crate::text::str_eq(response, "export_html") {
        CloseChoice::ExportHtml
    } else if crate::text::str_eq(response, "close") {
        CloseChoice::CloseWithoutSaving
    } else {
        CloseChoice::Cancel
    }
}

/// Whether the window closes after the choice.
pub fn closes_window(c: CloseChoice) -> (b: bool)
    ensures
        b == closes_after(c),
{
    match c {
        CloseChoice::Cancel => false,
        _ => true,
    }
}

/// What to do with the files the application is asked to open.
#[derive(Debug, Clone, PartialEq, Eq)]
pub enum OpenPlan {
    /// No file: the welcome screen.
    Nothing,
    /// One file, in the left editor.
    Single(String),
    /// The first two files, side by side, ready to compare.
    Pair(String, String),
}

/// One file opens alone; two or more open the first two side by side.
pub fn open_plan(paths: &Vec<String>) -> (p: OpenPlan)
    ensures
        paths@.len() == 0 ==> p == OpenPlan::Nothing,
        paths@.len() == 1 ==> (p matches OpenPlan::Single(a) && a@ == paths@[0]@),
        paths@.len() >= 2 ==> (p matches OpenPlan::Pair(a, b) && a@ == paths@[0]@ && b@ == paths@[1]@),
{
    if paths.len() == 0 {
        OpenPlan::Nothing
    } else if paths.len() == 1 {
        OpenPlan::Single(paths[0].clone())
    } else {
        OpenPlan::Pair(paths[0].clone(), paths[1].clone())
    }
}

/// A key of the keyboard, as far as the shortcuts need it.
#[derive(Debug, Clone, Copy, PartialEq, Eq, Structural)]
pub enum Key {
    Char(char),
    Return,
    Other,
}

/// What a keyboard shortcut does.
#[derive(Debug, Clone, Copy, PartialEq, Eq, Structural)]
pub enum Shortcut {
    OpenLeft,
    OpenRight,
    Compare,
    SaveSession,
    ToggleHistory,
    ToggleSearch,
}

/// The window's shortcuts, all with Ctrl: `o` opens the left document
/// (`O` or Shift+`o` the right one), Return compares, `s` saves the session,
/// `h` shows or hides the history and `f` the search bar.
pub open spec fn shortcut_for(ctrl: bool, shift: bool, key: Key) -> Option<Shortcut> {
    if !ctrl {
        None
    } else {
        match (key, shift) {
            (Key::Char('o'), false) => Some(Shortcut::OpenLeft),
            (Key::Char('O'), true) => Some(Shortcut::OpenRight),
            (Key::Char('o'), true) => Some(Shortcut::OpenRight),
            (Key::Return, false) => Some(Shortcut::Compare),
            (Key::Char('s'), false) => Some(Shortcut::SaveSession),
            (Key::Char('h'), false) => Some(Shortcut::ToggleHistory),
            (Key::Char('f'), false) => Some(Shortcut::ToggleSearch),
            _ => None,
        }
    }
}

/// The shortcut a key press triggers, if any.
pub fn shortcut_action(ctrl: bool, shift: bool, key: Key) -> (s: Option<Shortcut>)
    ensures
        s == shortcut_for(ctrl, shift, key),
{
    if !ctrl {
        return None;
    }
    match (key, shift) {
        (Key::Char('o'), false) => Some(Shortcut::OpenLeft),
        (Key::Char('O'), true) => Some(Shortcut::OpenRight),
        (Key::Char('o'), true) => Some(Shortcut::OpenRight),
        (Key::Return, false) => Some(Shortcut::Compare),
        (Key::Char('s'), false) => Some(Shortcut::SaveSession),
        (Key::Char('h'), false) => Some(Shortcut::ToggleHistory),
        (Key::Char('f'), false) => Some(Shortcut::ToggleSearch),
        _ => None,
    }
}

/// The syntax highlighting an opened file gets from its extension.
pub open spec fn language_for(ext: Seq<char>) -> Option<Seq<char>> {
    if ext == "json"@ {
        Some("json"@)
    } else if ext == "xml"@ {
        Some("xml"@)
    } else {
        None
    }
}

/// The source language of an opened file, from its extension.
pub fn language_for_extension(ext: &str) -> (l: Option<&'static str>)
    ensures
        match l {
            Some(s) => language_for(ext@) == Some(s@),
            None => language_for(ext@) is None,
        },
{
    if crate::text::str_eq(ext, "json") {
        Some("json")
    } else if crate::text::str_eq(ext, "xml") {
        Some("xml")
    } else {
        None
    }
}

} // verus!
