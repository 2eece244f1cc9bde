use rustdiff::diff_engine::{diff_json, DiffItem, DiffKind, DiffResult};
use rustdiff::export::{escape_html, export_html, export_txt, ReportLabels};
use rustdiff::parser::{parse_json, Format};

fn labels(fmt: Format) -> ReportLabels {
    ReportLabels {
        title: "Differences report".to_string(),
        meta_format: format!("Format: {}", fmt.name()),
        section_added: "ADDED".to_string(),
        section_removed: "REMOVED".to_string(),
        section_changed: "CHANGED".to_string(),
        identical: "The documents are identical".to_string(),
        col_type: "Type".to_string(),
        col_path: "Path".to_string(),
        col_left: "Left".to_string(),
        col_right: "Right".to_string(),
        html_left: "Left document".to_string(),
        html_right: "Right document".to_string(),
    }
}

#[test]
fn txt_documentos_identicos() {
    let result = DiffResult::new();
    let txt = export_txt(&result, &labels(Format::Json));
    assert!(txt.contains("identical"));
    assert!(txt.contains("JSON"));
}

#[test]
fn txt_con_diferencias() {
    let left = parse_json(r#"{"a": 1, "b": 2}"#).unwrap();
    let right = parse_json(r#"{"a": 10, "c": 3}"#).unwrap();
    let result = diff_json(&left, &right);
    let txt = export_txt(&result, &labels(Format::Json));
    assert!(txt.contains("ADDED"));
    assert!(txt.contains("REMOVED"));
    assert!(txt.contains("CHANGED"));
    assert!(txt.contains("$.a"));
}

#[test]
fn html_estructura_valida() {
    let left = parse_json(r#"{"x": 1}"#).unwrap();
    let right = parse_json(r#"{"x": 2, "y": 3}"#).unwrap();
    let result = diff_json(&left, &right);
    let html = export_html(&result, &labels(Format::Json), "en", r#"{"x":1}"#, r#"{"x":2,"y":3}"#);
    assert!(html.contains("<!DOCTYPE html>"));
    assert!(html.contains("</html>"));
    assert!(html.contains("<table>"));
    assert!(html.contains("class=\"changed\""));
    assert!(html.contains("class=\"added\""));
}

#[test]
fn html_escapa_caracteres() {
    let item = DiffItem {
        path: "$.html".into(),
        kind: DiffKind::Changed,
        left: Some("<b>old</b>".into()),
        right: Some("<b>new</b>".into()),
    };
    let result = DiffResult { added: vec![], removed: vec![], changed: vec![item] };
    let html = export_html(&result, &labels(Format::Json), "en", "<b>old</b>", "<b>new</b>");
    assert!(!html.contains("<b>old</b></td>"));
    assert!(html.contains("&lt;b&gt;old&lt;/b&gt;"));
}

#[test]
fn html_documentos_identicos() {
    let result = DiffResult::new();
    let html = export_html(&result, &labels(Format::Xml), "en", "<r/>", "<r/>");
    assert!(html.contains("identical"));
    assert!(!html.contains("<table>"));
}

#[test]
fn txt_formato_xml() {
    let result = DiffResult::new();
    let txt = export_txt(&result, &labels(Format::Xml));
    assert!(txt.contains("XML"));
}

#[test]
fn escape_html_replaces_each_special_character() {
    assert_eq!(escape_html(r#"a & b < c > d "e""#), "a &amp; b &lt; c &gt; d &quot;e&quot;");
    assert_eq!(escape_html("plain"), "plain");
    assert_eq!(escape_html(""), "");
}

#[test]
fn txt_report_exact_layout() {
    let left = parse_json(r#"{"a": 1}"#).unwrap();
    let right = parse_json(r#"{"a": 2}"#).unwrap();
    let result = diff_json(&left, &right);
    let rule = "═".repeat(43);
    let expected = format!(
        "{rule}\n  Differences report\n  Format: JSON\n  1 diferencia(s): 0 añadida(s), 0 eliminada(s), 1 modificada(s)\n{rule}\n\nCHANGED\n  [~] $.a : 1 → 2\n\n"
    );
    assert_eq!(export_txt(&result, &labels(Format::Json)), expected);
}

#[test]
fn html_rows_follow_path_order() {
    let left = parse_json(r#"{"b": 1, "c": 1}"#).unwrap();
    let right = parse_json(r#"{"a": 1, "b": 2}"#).unwrap();
    let result = diff_json(&left, &right);
    let html = export_html(&result, &labels(Format::Json), "es", "", "");
    let a = html.find("$.a").unwrap();
    let b = html.find("$.b").unwrap();
    let c = html.find("$.c").unwrap();
    assert!(a < b && b < c);
    assert!(html.contains("<html lang=\"es\">"));
}
