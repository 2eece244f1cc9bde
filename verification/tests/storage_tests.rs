use rustdiff::diff_engine::diff_json;
use rustdiff::parser::{parse_json, Format};
use rustdiff::storage::{
    format_from_lowercase, format_to_str, row_to_session, str_to_format, DiffSummary, Session, SessionRow,
};

fn sample_summary(added: usize, removed: usize, changed: usize) -> DiffSummary {
    DiffSummary { added, removed, changed, total: added + removed + changed }
}

#[test]
fn diff_summary_short_text() {
    assert_eq!(sample_summary(0, 0, 0).short_text(), "Idénticos");
    assert_eq!(sample_summary(2, 1, 3).short_text(), "+2 −1 ~3");
}

#[test]
fn session_display() {
    let session = Session {
        id: 42,
        created_at: "2026-04-14 10:00:00".into(),
        format: Format::Json,
        left_content: String::new(),
        right_content: String::new(),
        diff_summary: sample_summary(1, 2, 3),
    };
    let display = session.display_text();
    assert!(display.contains("42"));
    assert!(display.contains("JSON"));
    assert!(display.contains("+1 −2 ~3"));
    assert_eq!(display, "[42] 2026-04-14 10:00:00 — JSON (+1 −2 ~3)");
}

#[test]
fn summary_from_result_counts_each_list() {
    let left = parse_json(r#"{"a": 1, "b": 2}"#).unwrap();
    let right = parse_json(r#"{"a": 10, "c": 3}"#).unwrap();
    let summary = DiffSummary::from_diff_result(&diff_json(&left, &right));
    assert_eq!(summary, sample_summary(1, 1, 1));
}

#[test]
fn formats_are_stored_lowercase_and_read_back_in_any_case() {
    assert_eq!(format_to_str(Format::Json), "json");
    assert_eq!(format_to_str(Format::Xml), "xml");
    assert_eq!(str_to_format("xml"), Format::Xml);
    assert_eq!(str_to_format("XML"), Format::Xml);
    assert_eq!(str_to_format("Xml"), Format::Xml);
    assert_eq!(str_to_format("json"), Format::Json);
    assert_eq!(str_to_format("yaml"), Format::Json);
    assert_eq!(format_from_lowercase("xml"), Format::Xml);
    assert_eq!(format_from_lowercase("XML"), Format::Json);
}

#[test]
fn row_without_readable_summary_counts_as_identical() {
    let row = SessionRow {
        id: 7,
        created_at: "2026-01-01 00:00:00".into(),
        format: "XML".into(),
        left_content: "<a/>".into(),
        right_content: "<b/>".into(),
        diff_summary: "{".into(),
    };
    let session = row_to_session(row.clone(), None);
    assert_eq!(session.id, 7);
    assert_eq!(session.format, Format::Xml);
    assert_eq!(session.left_content, "<a/>");
    assert_eq!(session.diff_summary, sample_summary(0, 0, 0));
    let session = row_to_session(row, Some(sample_summary(1, 0, 2)));
    assert_eq!(session.diff_summary, sample_summary(1, 0, 2));
    assert_eq!(session.history_label(), "#7 XML +1 −0 ~2\n2026-01-01 00:00:00");
}
