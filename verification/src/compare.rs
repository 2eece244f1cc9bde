//! The two editor actions that work on both documents at once: comparing
//! them and formatting them, from the texts and the chosen format to what
//! the window shows.

use vstd::prelude::*;
use crate::diff_engine::{DiffResult, Diffs};
use crate::json::JsonV;
use crate::json_diff::{diff_json, json_diff};
use crate::json_read::{parse_json, serde_json_accepts, serde_json_error, serde_json_reading};
use crate::parser::{Format, ParseError, XmlNode, auto_detect_format, byte_len, detected_format, MAX_INPUT_SIZE};
use crate::pretty::{format_pretty, pretty_text};
use crate::text::{is_blank, trimmed};
use crate::xml_diff::{diff_xml, xml_comparable, xml_diff, xml_safe};
use crate::xml_read::{parse_xml, tree_matches, xml_document};

verus! {

/// The format selector: detect from the left document, or a fixed format.
#[derive(Debug, Clone, Copy, PartialEq, Eq, Structural)]
pub enum FormatChoice {
    Auto,
    Json,
    Xml,
}

/// The format to work with: the chosen one, or the one the left document
/// announces (none when it announces none).
pub open spec fn effective_format(choice: FormatChoice, left: Seq<char>) -> Option<Format> {
    match choice {
        FormatChoice::Json => Some(Format::Json),
        FormatChoice::Xml => Some(Format::Xml),
        FormatChoice::Auto => match detected_format(left) {
            Ok(f) => Some(f),
            Err(_) => None,
        },
    }
}

/// The format to work with.
pub fn choose_format(choice: FormatChoice, left: &str) -> (f: Option<Format>)
    ensures
        f == effective_format(choice, left@),
{
    match choice {
        FormatChoice::Json => Some(Format::Json),
        FormatChoice::Xml => Some(Format::Xml),
        FormatChoice::Auto => match auto_detect_format(left) {
            Ok(f) => Some(f),
            Err(_) => None,
        },
    }
}

/// What a comparison gives.
#[derive(Debug)]
pub enum CompareOutcome {
    /// One of the documents is blank.
    NeedInput,
    /// The format could not be detected from the left document.
    Undetected,
    /// The left document does not parse.
    LeftInvalid(ParseError),
    /// The right document does not parse.
    RightInvalid(ParseError),
    /// Two XML trees that cannot be compared (see `xml_comparable`).
    Incomparable,
    /// The differences, and the format they were found in.
    Compared(DiffResult, Format),
}

/// The error that reading a JSON document that fails gives: too large, or
/// serde_json's message.
pub open spec fn json_error_is(e: ParseError, input: &str) -> bool {
    if byte_len(input) > MAX_INPUT_SIZE {
        e == ParseError::InputTooLarge { limit: MAX_INPUT_SIZE, actual: byte_len(input) }
    } else {
        e matches ParseError::InvalidJson(m) && m@ == serde_json_error(input@)
    }
}

/// The error that reading a non-blank XML document that fails gives: too
/// large, or the message of the tree its events describe.
pub open spec fn xml_error_is(e: ParseError, input: &str) -> bool {
    if byte_len(input) > MAX_INPUT_SIZE {
        e == ParseError::InputTooLarge { limit: MAX_INPUT_SIZE, actual: byte_len(input) }
    } else {
        tree_matches(Err(e), xml_document(input))
    }
}

/// Compares two documents. Blank input asks for input; otherwise the format
/// is chosen (or detected from the left document), both documents are
/// parsed, the left one first, and their semantic differences computed.
pub fn compare_documents(left: &str, right: &str, choice: FormatChoice) -> (r: CompareOutcome)
    ensures
        (trimmed(left@).len() == 0 || trimmed(right@).len() == 0) <==> r is NeedInput,
        r is Undetected <==> (trimmed(left@).len() > 0 && trimmed(right@).len() > 0 && effective_format(
            choice,
            left@,
        ) is None),
        r matches CompareOutcome::Compared(d, f) ==> effective_format(choice, left@) == Some(f),
        trimmed(left@).len() > 0 && trimmed(right@).len() > 0 && effective_format(choice, left@) == Some(
            Format::Json,
        ) ==> {
            let lok = byte_len(left) <= MAX_INPUT_SIZE && serde_json_accepts(left@);
            let rok = byte_len(right) <= MAX_INPUT_SIZE && serde_json_accepts(right@);
            &&& r is LeftInvalid <==> !lok
            &&& r is RightInvalid <==> lok && !rok
            &&& r is Compared <==> lok && rok
            &&& r matches CompareOutcome::Compared(d, _) ==> d@ == json_diff(
                serde_json_reading(left@),
                serde_json_reading(right@),
                seq!['$'],
            )
            &&& r matches CompareOutcome::LeftInvalid(e) ==> json_error_is(e, left)
            &&& r matches CompareOutcome::RightInvalid(e) ==> json_error_is(e, right)
        },
        trimmed(left@).len() > 0 && trimmed(right@).len() > 0 && effective_format(choice, left@) == Some(
            Format::Xml,
        ) ==> {
            let lok = byte_len(left) <= MAX_INPUT_SIZE && xml_document(left) is Ok;
            let rok = byte_len(right) <= MAX_INPUT_SIZE && xml_document(right) is Ok;
            let lt = xml_document(left)->Ok_0;
            let rt = xml_document(right)->Ok_0;
            &&& r is LeftInvalid <==> !lok
            &&& r is RightInvalid <==> lok && !rok
            &&& r is Incomparable <==> lok && rok && !xml_safe(lt, rt)
            &&& r is Compared <==> lok && rok && xml_safe(lt, rt)
            &&& r matches CompareOutcome::Compared(d, _) ==> d@ == xml_diff(lt, rt, lt.tag)
            &&& r matches CompareOutcome::LeftInvalid(e) ==> xml_error_is(e, left)
            &&& r matches CompareOutcome::RightInvalid(e) ==> xml_error_is(e, right)
        },
{
    if is_blank(left) || is_blank(right) {
        return CompareOutcome::NeedInput;
    }
    match choose_format(choice, left) {
        None => CompareOutcome::Undetected,
        Some(Format::Json) => {
            let lv = match parse_json(left) {
                Ok(v) => v,
                Err(e) => {
                    return CompareOutcome::LeftInvalid(e);
                },
            };
            let rv = match parse_json(right) {
                Ok(v) => v,
                Err(e) => {
                    return CompareOutcome::RightInvalid(e);
                },
            };
            CompareOutcome::Compared(diff_json(&lv, &rv), Format::Json)
        },
        Some(Format::Xml) => {
            let ln = match parse_xml(left) {
                Ok(n) => n,
                Err(e) => {
                    return CompareOutcome::LeftInvalid(e);
                },
            };
            let rn = match parse_xml(right) {
                Ok(n) => n,
                Err(e) => {
                    return CompareOutcome::RightInvalid(e);
                },
            };
            if !xml_comparable(&ln, &rn) {
                return CompareOutcome::Incomparable;
            }
            let d = diff_xml(&ln, &rn);
            assert(xml_safe(ln@, rn@) && d@ == xml_diff(ln@, rn@, ln.tag@));
            CompareOutcome::Compared(d, Format::Xml)
        },
    }
}

/// What formatting both documents gives.
#[derive(Debug)]
pub enum FormatOutcome {
    /// The format could not be detected from the left document.
    Undetected,
    /// The left document could not be formatted.
    LeftFailed(ParseError),
    /// The right document could not be formatted; the left one's new text
    /// (`None` when it is blank) is kept.
    RightFailed { left: Option<String>, error: ParseError },
    /// The new texts of the non-blank documents (`None` for a blank one).
    Formatted { left: Option<String>, right: Option<String>, format: Format },
}

/// Pretty-prints both documents in the chosen (or detected) format; blank
/// documents are left as they are, and the left one is done first.
pub fn format_documents(left: &str, right: &str, choice: FormatChoice) -> (r: FormatOutcome)
    ensures
        r is Undetected <==> effective_format(choice, left@) is None,
        r matches FormatOutcome::Formatted { left: l, right: rr, format: f } ==> {
            &&& effective_format(choice, left@) == Some(f)
            &&& (l is None <==> trimmed(left@).len() == 0)
            &&& (rr is None <==> trimmed(right@).len() == 0)
        },
        r matches FormatOutcome::RightFailed { left: l, .. } ==> trimmed(right@).len() > 0 && effective_format(choice, left@) is Some
            && (l is None <==> trimmed(left@).len() == 0),
        r is LeftFailed ==> trimmed(left@).len() > 0,
        effective_format(choice, left@) matches Some(f) ==> {
            let lfails = trimmed(left@).len() > 0 && pretty_text(left, f) is None;
            let rfails = trimmed(right@).len() > 0 && pretty_text(right, f) is None;
            &&& r is LeftFailed <==> lfails
            &&& r is RightFailed <==> !lfails && rfails
            &&& r is Formatted <==> !lfails && !rfails
            &&& r matches FormatOutcome::Formatted { left: Some(l), .. } ==> pretty_text(left, f) == Some(l@)
            &&& r matches FormatOutcome::Formatted { right: Some(x), .. } ==> pretty_text(right, f) == Some(x@)
            &&& r matches FormatOutcome::RightFailed { left: Some(l), .. } ==> pretty_text(left, f) == Some(l@)
        },
{
    let fmt = match choose_format(choice, left) {
        None => {
            return FormatOutcome::Undetected;
        },
        Some(f) => f,
    };
    let new_left = if is_blank(left) {
        None
    } else {
        match format_pretty(left, fmt) {
            Ok(p) => Some(p),
            Err(e) => {
                return FormatOutcome::LeftFailed(e);
            },
        }
    };
    let new_right = if is_blank(right) {
        None
    } else {
        match format_pretty(right, fmt) {
            Ok(p) => Some(p),
            Err(e) => {
                return FormatOutcome::RightFailed { left: new_left, error: e };
            },
        }
    };
    FormatOutcome::Formatted { left: new_left, right: new_right, format: fmt }
}

} // verus!
