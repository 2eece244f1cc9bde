//! Difference reports as plain text and as HTML, for sharing or keeping a
//! comparison. The translated wording is handed in by the caller.

use vstd::prelude::*;
use crate::diff_engine::{
    DiffItem, DiffItemV, DiffKind, DiffResult, Diffs, item_line, kind_label, or_empty, opt_view,
    refs_view, sort_by_path, summary_text,
};

verus! {

/// The translated texts of a report.
pub struct ReportLabels {
    /// Report title.
    pub title: String,
    /// The line naming the documents' format.
    pub meta_format: String,
    /// Headings of the three sections, with their counts.
    pub section_added: String,
    pub section_removed: String,
    pub section_changed: String,
    /// Shown when the documents are identical.
    pub identical: String,
    /// Table headings: kind, path, left value, right value.
    pub col_type: String,
    pub col_path: String,
    pub col_left: String,
    pub col_right: String,
    /// Titles of the two collapsible original documents.
    pub html_left: String,
    pub html_right: String,
}

/// How one character is written in HTML text.
pub open spec fn escape_char(c: char) -> Seq<char> {
    if c == '&' {
        "&amp;"@
    } else if c == '<' {
        "&lt;"@
    } else if c == '>' {
        "&gt;"@
    } else if c == '"' {
        "&quot;"@
    } else {
        seq![c]
    }
}

/// A text with `&`, `<`, `>` and `"` written as entities.
pub open spec fn escaped(s: Seq<char>) -> Seq<char>
    decreases s.len(),
{
    if s.len() == 0 {
        Seq::empty()
    } else {
        escaped(s.drop_last()) + escape_char(s.last())
    }
}

/// Escapes the characters that are special in HTML.
pub fn escape_html(s: &str) -> (r: String)
    ensures
        r@ == escaped(s@),
{
    let ghost v = s@;
    let mut r = String::new();
    proof {
        reveal_strlit("&amp;");
        reveal_strlit("&lt;");
        reveal_strlit("&gt;");
        reveal_strlit("&quot;");
    }
    for c in it: s.chars()
        invariant
            it.seq() == v,
            r@ == escaped(v.take(it.index() as int)),
    {
        let ghost k = it.index() as int;
        assert(v.take(k + 1).drop_last() =~= v.take(k));
        assert(v.take(k + 1).last() == c);
        if c == '&' {
            r.append("&amp;");
        } else if c == '<' {
            r.append("&lt;");
        } else if c == '>' {
            r.append("&gt;");
        } else if c == '"' {
            r.append("&quot;");
        } else {
            r.push(c);
        }
    }
    assert(v.take(v.len() as int) =~= v);
    r
}

/// Escaped text holds no raw `<`, `>` or `"`: whatever it is built from, it
/// cannot open a tag or close an attribute.
pub proof fn lemma_escaped_is_inert(s: Seq<char>)
    ensures
        forall|i: int| 0 <= i < escaped(s).len() ==> {
            let c = #[trigger] escaped(s)[i];
            c != '<' && c != '>' && c != '"'
        },
    decreases s.len(),
{
    reveal_strlit("&amp;");
    reveal_strlit("&lt;");
    reveal_strlit("&gt;");
    reveal_strlit("&quot;");
    if s.len() > 0 {
        lemma_escaped_is_inert(s.drop_last());
        let a = escaped(s.drop_last());
        let b = escape_char(s.last());
        assert forall|i: int| 0 <= i < escaped(s).len() implies {
            let c = #[trigger] escaped(s)[i];
            c != '<' && c != '>' && c != '"'
        } by {
            if i >= a.len() {
                assert(escaped(s)[i] == b[i - a.len()]);
            } else {
                assert(escaped(s)[i] == a[i]);
            }
        }
    }
}

/// The horizontal rule of the text report.
pub open spec fn rule_line() -> Seq<char> {
    Seq::new(43, |i: int| '═').push('\n')
}

/// One indented line per difference.
pub open spec fn item_lines(items: Seq<DiffItemV>) -> Seq<char>
    decreases items.len(),
{
    if items.len() == 0 {
        Seq::empty()
    } else {
        item_lines(items.drop_last()) + "  "@ + item_line(items.last()) + seq!['\n']
    }
}

/// A section of the text report: its heading and its lines, or nothing for
/// an empty list.
pub open spec fn txt_section(items: Seq<DiffItemV>, heading: Seq<char>) -> Seq<char> {
    if items.len() == 0 {
        Seq::empty()
    } else {
        heading + seq!['\n'] + item_lines(items) + seq!['\n']
    }
}

/// The plain-text report.
pub open spec fn txt_report(d: Diffs, l: ReportLabels) -> Seq<char> {
    rule_line() + "  "@ + l.title@ + seq!['\n'] + "  "@ + l.meta_format@ + seq!['\n'] + "  "@
        + summary_text(d) + seq!['\n'] + rule_line() + seq!['\n'] + txt_section(d.added, l.section_added@)
        + txt_section(d.removed, l.section_removed@) + txt_section(d.changed, l.section_changed@) + (if d.total()
        == 0 {
        "  "@ + l.identical@ + seq!['\n']
    } else {
        Seq::empty()
    })
}

/// Each non-empty list of differences appears in the text report under its
/// own heading: the heading for additions followed, one line each and in
/// order, by exactly the added items; the heading for removals by exactly
/// the removed items; the heading for changes by exactly the changed items.
pub proof fn lemma_txt_sections_under_their_headings(d: Diffs, l: ReportLabels)
    ensures
        d.added.len() > 0 ==> exists|pre: Seq<char>, post: Seq<char>|
            txt_report(d, l) == pre + l.section_added@ + seq!['\n'] + #[trigger] item_lines(d.added) + seq!['\n'] + post,
        d.removed.len() > 0 ==> exists|pre: Seq<char>, post: Seq<char>|
            txt_report(d, l) == pre + l.section_removed@ + seq!['\n'] + #[trigger] item_lines(d.removed) + seq!['\n']
                + post,
        d.changed.len() > 0 ==> exists|pre: Seq<char>, post: Seq<char>|
            txt_report(d, l) == pre + l.section_changed@ + seq!['\n'] + #[trigger] item_lines(d.changed) + seq!['\n']
                + post,
{
    let head = rule_line() + "  "@ + l.title@ + seq!['\n'] + "  "@ + l.meta_format@ + seq!['\n'] + "  "@
        + summary_text(d) + seq!['\n'] + rule_line() + seq!['\n'];
    let a = txt_section(d.added, l.section_added@);
    let r = txt_section(d.removed, l.section_removed@);
    let c = txt_section(d.changed, l.section_changed@);
    let tail = if d.total() == 0 {
        "  "@ + l.identical@ + seq!['\n']
    } else {
        Seq::empty()
    };
    assert(txt_report(d, l) == head + a + r + c + tail);
    if d.added.len() > 0 {
        let post = r + c + tail;
        assert(txt_report(d, l) =~= head + l.section_added@ + seq!['\n'] + item_lines(d.added) + seq!['\n'] + post);
    }
    if d.removed.len() > 0 {
        let pre = head + a;
        let post = c + tail;
        assert(txt_report(d, l) =~= pre + l.section_removed@ + seq!['\n'] + item_lines(d.removed) + seq!['\n'] + post);
    }
    if d.changed.len() > 0 {
        let pre = head + a + r;
        assert(txt_report(d, l) =~= pre + l.section_changed@ + seq!['\n'] + item_lines(d.changed) + seq!['\n'] + tail);
    }
}

/// The lines of a section are, in order, one line per item: two spaces, the
/// item's description, a line break.
pub proof fn lemma_item_lines_one_per_item(items: Seq<DiffItemV>, k: int)
    requires
        0 <= k <= items.len(),
    ensures
        item_lines(items) == item_lines(items.take(k)) + item_lines(items.skip(k)),
        k < items.len() ==> item_lines(items.skip(k)) == "  "@ + item_line(items[k]) + seq!['\n'] + item_lines(
            items.skip(k + 1),
        ),
    decreases items.len() - k,
{
    if k == items.len() {
        assert(items.take(k) =~= items);
        assert(items.skip(k) =~= Seq::<DiffItemV>::empty());
        assert(item_lines(items) + Seq::<char>::empty() =~= item_lines(items));
    } else {
        lemma_item_lines_one_per_item(items, k + 1);
        lemma_item_lines_append(items.take(k), items.skip(k));
        assert(items.take(k) + items.skip(k) =~= items);
        lemma_item_lines_append(seq![items[k]], items.skip(k + 1));
        assert(seq![items[k]] + items.skip(k + 1) =~= items.skip(k));
        let one = seq![items[k]];
        assert(one.drop_last() =~= Seq::<DiffItemV>::empty());
        assert(one.last() == items[k]);
        assert(item_lines(one.drop_last()) == Seq::<char>::empty());
        assert(item_lines(one) == item_lines(one.drop_last()) + "  "@ + item_line(items[k]) + seq!['\n']);
        assert(item_lines(one) =~= "  "@ + item_line(items[k]) + seq!['\n']);
    }
}

proof fn lemma_item_lines_append(a: Seq<DiffItemV>, b: Seq<DiffItemV>)
    ensures
        item_lines(a + b) == item_lines(a) + item_lines(b),
    decreases b.len(),
{
    if b.len() == 0 {
        assert(a + b =~= a);
        assert(item_lines(a) + item_lines(b) =~= item_lines(a));
    } else {
        lemma_item_lines_append(a, b.drop_last());
        assert((a + b).drop_last() =~= a + b.drop_last());
        assert((a + b).last() == b.last());
        assert(item_lines(a + b) =~= item_lines(a) + item_lines(b));
    }
}

fn push_rule(out: &mut String)
    ensures
        final(out)@ == old(out)@ + rule_line(),
{
    let ghost start = out@;
    let mut i: usize = 0;
    while i < 43
        invariant
            i <= 43,
            out@ == start + Seq::new(i as nat, |k: int| '═'),
        decreases 43 - i,
    {
        out.push('═');
        i = i + 1;
        assert(out@ =~= start + Seq::new(i as nat, |k: int| '═'));
    }
    out.push('\n');
    assert(out@ =~= start + rule_line());
}

fn push_section(out: &mut String, items: &Vec<DiffItem>, heading: &String)
    ensures
        final(out)@ == old(out)@ + txt_section(crate::diff_engine::items_view(items@), heading@),
{
    let ghost iv = crate::diff_engine::items_view(items@);
    if items.len() == 0 {
        assert(old(out)@ + txt_section(iv, heading@) =~= old(out)@);
        return;
    }
    out.append(heading.as_str());
    out.push('\n');
    let ghost head = out@;
    let mut i: usize = 0;
    assert(iv.take(0) =~= Seq::<DiffItemV>::empty());
    assert(out@ =~= head + item_lines(iv.take(0)));
    while i < items.len()
        invariant
            i <= items.len(),
            iv == crate::diff_engine::items_view(items@),
            out@ == head + item_lines(iv.take(i as int)),
        decreases items.len() - i,
    {
        assert(iv.take(i + 1).drop_last() =~= iv.take(i as int));
        assert(iv.take(i + 1).last() == items@[i as int]@);
        out.append("  ");
        out.append(items[i].line().as_str());
        out.push('\n');
        i = i + 1;
        assert(out@ =~= head + item_lines(iv.take(i as int)));
    }
    assert(iv.take(items.len() as int) =~= iv);
    out.push('\n');
    assert(out@ =~= old(out)@ + txt_section(iv, heading@));
}

/// The plain-text report of a result: a framed header (title, format line,
/// summary), then one section per non-empty list, each difference on its
/// own line, and a closing line when the documents are identical.
pub fn export_txt(result: &DiffResult, labels: &ReportLabels) -> (s: String)
    requires
        result.counts_fit(),
    ensures
        s@ == txt_report(result@, *labels),
{
    let mut out = String::new();
    push_rule(&mut out);
    out.append("  ");
    out.append(labels.title.as_str());
    out.push('\n');
    out.append("  ");
    out.append(labels.meta_format.as_str());
    out.push('\n');
    out.append("  ");
    out.append(result.summary().as_str());
    out.push('\n');
    push_rule(&mut out);
    out.push('\n');
    push_section(&mut out, &result.added, &labels.section_added);
    push_section(&mut out, &result.removed, &labels.section_removed);
    push_section(&mut out, &result.changed, &labels.section_changed);
    let ghost before = out@;
    if result.is_empty() {
        out.append("  ");
        out.append(labels.identical.as_str());
        out.push('\n');
    }
    assert(out@ =~= txt_report(result@, *labels));
    out
}

/// The style sheet of the HTML report.
pub const HTML_STYLE: &'static str = r#"
    body {
      font-family: -apple-system, BlinkMacSystemFont, "Segoe UI", Roboto, sans-serif;
      max-width: 1200px; margin: 2rem auto; padding: 0 1rem;
      color: #333; background: #fafafa;
    }
    h1 { color: #2c3e50; border-bottom: 2px solid #3498db; padding-bottom: 0.5rem; }
    .meta { color: #666; }
    .identical { color: #27ae60; font-weight: bold; }
    table {
      width: 100%; border-collapse: collapse; margin: 1rem 0;
      font-size: 0.9rem;
    }
    th { background: #34495e; color: white; padding: 0.5rem; text-align: left; }
    td { padding: 0.4rem 0.5rem; border-bottom: 1px solid #ddd; word-break: break-word; }
    code { font-family: "Fira Code", "Cascadia Code", monospace; font-size: 0.85rem; }
    tr.added { background: rgba(46, 204, 113, 0.15); }
    tr.removed { background: rgba(231, 76, 60, 0.15); }
    tr.changed { background: rgba(241, 196, 15, 0.15); }
    details { margin: 1rem 0; }
    summary { cursor: pointer; font-weight: bold; color: #2c3e50; }
    pre {
      background: #2c3e50; color: #ecf0f1; padding: 1rem;
      border-radius: 4px; overflow-x: auto; font-size: 0.85rem;
    }
"#;

/// The CSS class of a row.
pub open spec fn kind_class(k: DiffKind) -> Seq<char> {
    match k {
        DiffKind::Added => "added"@,
        DiffKind::Removed => "removed"@,
        DiffKind::Changed => "changed"@,
    }
}

/// A table cell holding escaped text.
pub open spec fn cell(text: Seq<char>) -> Seq<char> {
    "<td>"@ + escaped(text) + "</td>"@
}

/// One table row of the HTML report.
pub open spec fn html_row(d: DiffItemV) -> Seq<char> {
    "      <tr class=\""@ + kind_class(d.kind) + "\">"@ + cell(kind_label(d.kind)) + ("<td><code>"@
        + escaped(d.path) + "</code></td>"@) + cell(or_empty(d.left)) + cell(or_empty(d.right))
        + "</tr>\n"@
}

pub open spec fn html_rows(items: Seq<DiffItemV>) -> Seq<char>
    decreases items.len(),
{
    if items.len() == 0 {
        Seq::empty()
    } else {
        html_rows(items.drop_last()) + html_row(items.last())
    }
}

/// The body of the HTML report: the table of differences ordered by path,
/// or the identical-documents note.
pub open spec fn html_findings(d: Diffs, l: ReportLabels) -> Seq<char> {
    if d.total() > 0 {
        "  <table>\n"@ + "    <thead><tr>"@ + "<th>"@ + escaped(l.col_type@) + "</th><th>"@ + escaped(
            l.col_path@,
        ) + "</th><th>"@ + escaped(l.col_left@) + "</th><th>"@ + escaped(l.col_right@) + "</th>"@
            + "</tr></thead>\n    <tbody>\n"@ + html_rows(sort_by_path(d.added + d.removed + d.changed))
            + "    </tbody>\n  </table>\n"@
    } else {
        "  <p class=\"identical\">"@ + escaped(l.identical@) + "</p>\n"@
    }
}

/// A collapsible original document.
pub open spec fn html_document(title: Seq<char>, text: Seq<char>) -> Seq<char> {
    "  <details>\n    <summary>"@ + escaped(title) + "</summary>\n"@ + "    <pre><code>"@ + escaped(text)
        + "</code></pre>\n"@ + "  </details>\n"@
}

/// The opening of the HTML report, up to the summary line.
pub open spec fn html_header(l: ReportLabels, lang: Seq<char>, summary: Seq<char>) -> Seq<char> {
    ("<!DOCTYPE html>\n<html lang=\""@ + lang + "\">\n<head>\n"@ + "  <meta charset=\"UTF-8\">\n"@)
        + ("  <title>"@ + escaped(l.title@) + "</title>\n"@) + ("  <style>\n"@ + HTML_STYLE@
        + "  </style>\n</head>\n<body>\n"@) + ("  <h1>"@ + escaped(l.title@) + "</h1>\n"@) + (
    "  <p class=\"meta\">"@ + escaped(l.meta_format@) + " | "@ + escaped(summary) + "</p>\n"@)
}

/// The HTML report.
pub open spec fn html_report(d: Diffs, l: ReportLabels, lang: Seq<char>, left: Seq<char>, right: Seq<char>) -> Seq<char> {
    html_header(l, lang, summary_text(d)) + html_findings(d, l) + html_document(l.html_left@, left)
        + html_document(l.html_right@, right) + "</body>\n</html>\n"@
}

fn push_escaped(out: &mut String, s: &str)
    ensures
        final(out)@ == old(out)@ + escaped(s@),
{
    let e = escape_html(s);
    out.append(e.as_str());
}

fn push_document(out: &mut String, title: &String, text: &str)
    ensures
        final(out)@ == old(out)@ + html_document(title@, text@),
{
    out.append("  <details>\n    <summary>");
    push_escaped(out, title.as_str());
    out.append("</summary>\n");
    out.append("    <pre><code>");
    push_escaped(out, text);
    out.append("</code></pre>\n");
    out.append("  </details>\n");
    assert(out@ =~= old(out)@ + html_document(title@, text@));
}

fn push_cell(out: &mut String, text: &str)
    ensures
        final(out)@ == old(out)@ + cell(text@),
{
    out.append("<td>");
    push_escaped(out, text);
    out.append("</td>");
    assert(out@ =~= old(out)@ + cell(text@));
}

fn push_row_open(out: &mut String, kind: DiffKind)
    ensures
        final(out)@ == old(out)@ + ("      <tr class=\""@ + kind_class(kind) + "\">"@),
{
    out.append("      <tr class=\"");
    match kind {
        DiffKind::Added => out.append("added"),
        DiffKind::Removed => out.append("removed"),
        DiffKind::Changed => out.append("changed"),
    }
    out.append("\">");
    assert(out@ =~= old(out)@ + ("      <tr class=\""@ + kind_class(kind) + "\">"@));
}

fn push_code_cell(out: &mut String, text: &str)
    ensures
        final(out)@ == old(out)@ + ("<td><code>"@ + escaped(text@) + "</code></td>"@),
{
    out.append("<td><code>");
    push_escaped(out, text);
    out.append("</code></td>");
    assert(out@ =~= old(out)@ + ("<td><code>"@ + escaped(text@) + "</code></td>"@));
}

fn push_opt_cell(out: &mut String, value: &Option<String>)
    ensures
        final(out)@ == old(out)@ + cell(or_empty(opt_view(*value))),
{
    proof {
        reveal_strlit("");
    }
    match value {
        Some(v) => push_cell(out, v.as_str()),
        None => push_cell(out, ""),
    }
}

fn push_row(out: &mut String, item: &DiffItem)
    ensures
        final(out)@ == old(out)@ + html_row(item@),
{
    let ghost s0 = out@;
    push_row_open(out, item.kind);
    push_cell(out, item.kind.label().as_str());
    push_code_cell(out, item.path.as_str());
    push_opt_cell(out, &item.left);
    push_opt_cell(out, &item.right);
    out.append("</tr>\n");
    assert(out@ =~= s0 + html_row(item@));
}

fn push_header(out: &mut String, labels: &ReportLabels, lang: &str, summary: &String)
    ensures
        final(out)@ == old(out)@ + html_header(*labels, lang@, summary@),
{
    let ghost s0 = out@;
    out.append("<!DOCTYPE html>\n<html lang=\"");
    out.append(lang);
    out.append("\">\n<head>\n");
    out.append("  <meta charset=\"UTF-8\">\n");
    let ghost s1 = out@;
    assert(s1 =~= s0 + ("<!DOCTYPE html>\n<html lang=\""@ + lang@ + "\">\n<head>\n"@ + "  <meta charset=\"UTF-8\">\n"@));
    out.append("  <title>");
    push_escaped(out, labels.title.as_str());
    out.append("</title>\n");
    let ghost s2 = out@;
    assert(s2 =~= s1 + ("  <title>"@ + escaped(labels.title@) + "</title>\n"@));
    out.append("  <style>\n");
    out.append(HTML_STYLE);
    out.append("  </style>\n</head>\n<body>\n");
    let ghost s3 = out@;
    assert(s3 =~= s2 + ("  <style>\n"@ + HTML_STYLE@ + "  </style>\n</head>\n<body>\n"@));
    out.append("  <h1>");
    push_escaped(out, labels.title.as_str());
    out.append("</h1>\n");
    let ghost s4 = out@;
    assert(s4 =~= s3 + ("  <h1>"@ + escaped(labels.title@) + "</h1>\n"@));
    out.append("  <p class=\"meta\">");
    push_escaped(out, labels.meta_format.as_str());
    out.append(" | ");
    push_escaped(out, summary.as_str());
    out.append("</p>\n");
    assert(out@ =~= s4 + ("  <p class=\"meta\">"@ + escaped(labels.meta_format@) + " | "@ + escaped(summary@) + "</p>\n"@));
    assert(out@ =~= s0 + html_header(*labels, lang@, summary@));
}

fn push_table_head(out: &mut String, labels: &ReportLabels)
    ensures
        final(out)@ == old(out)@ + ("  <table>\n"@ + "    <thead><tr>"@ + "<th>"@ + escaped(labels.col_type@) + "</th><th>"@
            + escaped(labels.col_path@) + "</th><th>"@ + escaped(labels.col_left@) + "</th><th>"@ + escaped(labels.col_right@)
            + "</th>"@ + "</tr></thead>\n    <tbody>\n"@),
{
    out.append("  <table>\n");
    out.append("    <thead><tr>");
    out.append("<th>");
    push_escaped(out, labels.col_type.as_str());
    out.append("</th><th>");
    push_escaped(out, labels.col_path.as_str());
    out.append("</th><th>");
    push_escaped(out, labels.col_left.as_str());
    out.append("</th><th>");
    push_escaped(out, labels.col_right.as_str());
    out.append("</th>");
    out.append("</tr></thead>\n    <tbody>\n");
    assert(out@ =~= old(out)@ + ("  <table>\n"@ + "    <thead><tr>"@ + "<th>"@ + escaped(labels.col_type@) + "</th><th>"@
            + escaped(labels.col_path@) + "</th><th>"@ + escaped(labels.col_left@) + "</th><th>"@ + escaped(labels.col_right@)
            + "</th>"@ + "</tr></thead>\n    <tbody>\n"@));
}

/// The HTML report of a result, in the document language `lang`: a header
/// with the title, format line and summary; a table of the differences
/// ordered by path (kind, path, left and right values), or a note that the
/// documents are identical; then both original documents, collapsed. Every
/// text taken from the documents or the labels is escaped.
pub fn export_html(
    result: &DiffResult,
    labels: &ReportLabels,
    lang: &str,
    left_text: &str,
    right_text: &str,
) -> (s: String)
    requires
        result.counts_fit(),
    ensures
        s@ == html_report(result@, *labels, lang@, left_text@, right_text@),
{
    let mut out = String::new();
    let summary = result.summary();
    push_header(&mut out, labels, lang, &summary);
    let ghost head = out@;
    if !result.is_empty() {
        push_table_head(&mut out, labels);
        let items = result.all_items();
        let ghost iv = refs_view(items@);
        let ghost top = out@;
        let mut i: usize = 0;
        assert(iv.take(0) =~= Seq::<DiffItemV>::empty());
        assert(out@ =~= top + html_rows(iv.take(0)));
        while i < items.len()
            invariant
                i <= items.len(),
                iv == refs_view(items@),
                out@ == top + html_rows(iv.take(i as int)),
            decreases items.len() - i,
        {
            assert(iv.take(i + 1).drop_last() =~= iv.take(i as int));
            assert(iv.take(i + 1).last() == items@[i as int]@);
            push_row(&mut out, items[i]);
            i = i + 1;
        }
        assert(iv.take(items.len() as int) =~= iv);
        out.append("    </tbody>\n  </table>\n");
        assert(out@ =~= head + html_findings(result@, *labels));
    } else {
        out.append("  <p class=\"identical\">");
        push_escaped(&mut out, labels.identical.as_str());
        out.append("</p>\n");
        assert(out@ =~= head + html_findings(result@, *labels));
    }
    let ghost s1 = out@;
    push_document(&mut out, &labels.html_left, left_text);
    push_document(&mut out, &labels.html_right, right_text);
    out.append("</body>\n</html>\n");
    assert(out@ =~= s1 + html_document(labels.html_left@, left_text@) + html_document(labels.html_right@, right_text@) + "</body>\n</html>\n"@);
    assert(out@ =~= html_report(result@, *labels, lang@, left_text@, right_text@));
    out
}

} // verus!
