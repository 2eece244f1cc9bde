//! The values kept in the comparison history: a summary of each diff and
//! the saved sessions, with their textual forms. Reading and writing the
//! database itself happens outside this library.

use vstd::prelude::*;
use crate::diff_engine::{DiffResult, Diffs};
use crate::parser::{Format, format_name};
use crate::text::{decimal, i64_text, lowercase, signed_decimal, to_lowercase, usize_text};

verus! {

/// History size kept by default: older sessions are pruned.
pub const MAX_SESSIONS: usize = 20;

/// Counts of a diff result, as stored with a session.
#[derive(Debug, Clone, Copy, PartialEq, Eq, Structural)]
pub struct DiffSummary {
    pub added: usize,
    pub removed: usize,
    pub changed: usize,
    pub total: usize,
}

/// A saved comparison.
#[derive(Debug, Clone)]
pub struct Session {
    pub id: i64,
    pub created_at: String,
    pub format: Format,
    pub left_content: String,
    pub right_content: String,
    pub diff_summary: DiffSummary,
}

/// A session as read from the database, before interpretation.
#[derive(Debug, Clone)]
pub struct SessionRow {
    pub id: i64,
    pub created_at: String,
    pub format: String,
    pub left_content: String,
    pub right_content: String,
    /// The summary as stored (JSON text).
    pub diff_summary: String,
}

impl DiffSummary {
    /// The counts of a result.
    pub fn from_diff_result(result: &DiffResult) -> (s: DiffSummary)
        requires
            result.counts_fit(),
        ensures
            s.added == result@.added.len(),
            s.removed == result@.removed.len(),
            s.changed == result@.changed.len(),
            s.total == result@.total(),
    {
        DiffSummary {
            added: result.added.len(),
            removed: result.removed.len(),
            changed: result.changed.len(),
            total: result.total(),
        }
    }

    /// The summary of a session whose stored summary cannot be read.
    pub fn zero() -> (s: DiffSummary)
        ensures
            s == (DiffSummary { added: 0, removed: 0, changed: 0, total: 0 }),
    {
        DiffSummary { added: 0, removed: 0, changed: 0, total: 0 }
    }

    /// The short form shown in the history list.
    pub fn short_text(&self) -> (s: String)
        ensures
            s@ == summary_short(*self),
    {
        if self.total == 0 {
            String::from_str("Idénticos")
        } else {
            let mut s = String::new();
            s.push('+');
            s.append(usize_text(self.added).as_str());
            s.append(" −");
            s.append(usize_text(self.removed).as_str());
            s.append(" ~");
            s.append(usize_text(self.changed).as_str());
            assert(s@ =~= summary_short(*self));
            s
        }
    }
}

/// `Idénticos` for no difference, else `+added −removed ~changed`.
pub open spec fn summary_short(s: DiffSummary) -> Seq<char> {
    if s.total == 0 {
        "Idénticos"@
    } else {
        seq!['+'] + decimal(s.added as nat) + " −"@ + decimal(s.removed as nat) + " ~"@ + decimal(
            s.changed as nat,
        )
    }
}

/// How a format is stored.
pub open spec fn format_code(f: Format) -> Seq<char> {
    match f {
        Format::Json => "json"@,
        Format::Xml => "xml"@,
    }
}

/// The stored form of a format.
pub fn format_to_str(fmt: Format) -> (s: &'static str)
    ensures
        s@ == format_code(fmt),
{
    match fmt {
        Format::Json => "json",
        Format::Xml => "xml",
    }
}

/// The format a stored code names, once lowercased: `xml` is XML, anything
/// else JSON.
pub fn format_from_lowercase(code: &str) -> (f: Format)
    ensures
        f == (if code@ == "xml"@ { Format::Xml } else { Format::Json }),
{
    proof {
        reveal_strlit("xml");
    }
    if code.unicode_len() == 3 && code.get_char(0) == 'x' && code.get_char(1) == 'm' && code.get_char(2) == 'l' {
        assert(code@ =~= "xml"@);
        Format::Xml
    } else {
        Format::Json
    }
}

/// The format of a stored code, read case-insensitively.
pub fn str_to_format(s: &str) -> (f: Format)
    ensures
        f == (if lowercase(s@) == "xml"@ { Format::Xml } else { Format::Json }),
{
    let lower = to_lowercase(s);
    format_from_lowercase(lower.as_str())
}

/// A session from its stored row; `summary` is the stored summary read back,
/// or `None` when it could not be read, which counts as no difference.
pub fn row_to_session(row: SessionRow, summary: Option<DiffSummary>) -> (s: Session)
    ensures
        s.id == row.id,
        s.created_at@ == row.created_at@,
        s.format == (if lowercase(row.format@) == "xml"@ { Format::Xml } else { Format::Json }),
        s.left_content@ == row.left_content@,
        s.right_content@ == row.right_content@,
        s.diff_summary == (match summary {
            Some(d) => d,
            None => DiffSummary { added: 0, removed: 0, changed: 0, total: 0 },
        }),
{
    let format = str_to_format(row.format.as_str());
    let diff_summary = match summary {
        Some(d) => d,
        None => DiffSummary::zero(),
    };
    Session {
        id: row.id,
        created_at: row.created_at,
        format,
        left_content: row.left_content,
        right_content: row.right_content,
        diff_summary,
    }
}

/// `[id] created_at — FORMAT (short summary)`.
pub open spec fn session_line(s: Session) -> Seq<char> {
    seq!['['] + signed_decimal(s.id as int) + "] "@ + s.created_at@ + " — "@ + format_name(s.format)
        + " ("@ + summary_short(s.diff_summary) + seq![')']
}

impl Session {
    /// The one-line description of a session.
    pub fn display_text(&self) -> (t: String)
        ensures
            t@ == session_line(*self),
    {
        let mut t = String::new();
        t.push('[');
        t.append(i64_text(self.id).as_str());
        t.append("] ");
        t.append(self.created_at.as_str());
        t.append(" — ");
        t.append(self.format.name().as_str());
        t.append(" (");
        t.append(self.diff_summary.short_text().as_str());
        t.push(')');
        assert(t@ =~= session_line(*self));
        t
    }
}

/// The history list's two-line label: `#id FORMAT summary`, then the date.
pub open spec fn history_label_text(s: Session) -> Seq<char> {
    seq!['#'] + signed_decimal(s.id as int) + seq![' '] + format_name(s.format) + seq![' '] + summary_short(
        s.diff_summary,
    ) + seq!['\n'] + s.created_at@
}

impl Session {
    /// The label of the session in the history list.
    pub fn history_label(&self) -> (t: String)
        ensures
            t@ == history_label_text(*self),
    {
        let mut t = String::new();
        t.push('#');
        t.append(i64_text(self.id).as_str());
        t.push(' ');
        t.append(self.format.name().as_str());
        t.push(' ');
        t.append(self.diff_summary.short_text().as_str());
        t.push('\n');
        t.append(self.created_at.as_str());
        assert(t@ =~= history_label_text(*self));
        t
    }
}

} // verus!
