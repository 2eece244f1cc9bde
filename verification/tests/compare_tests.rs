use rustdiff::window::{
    close_choice, closes_window, language_for_extension, on_close_request, open_plan, shortcut_action, CloseChoice,
    CloseDecision, Key, OpenPlan, Shortcut,
};
use rustdiff::compare::{choose_format, compare_documents, format_documents, CompareOutcome, FormatChoice, FormatOutcome};
use rustdiff::parser::{Format, ParseError};

#[test]
fn blank_documents_ask_for_input() {
    assert!(matches!(compare_documents("  ", "{}", FormatChoice::Auto), CompareOutcome::NeedInput));
    assert!(matches!(compare_documents("{}", "\n", FormatChoice::Json), CompareOutcome::NeedInput));
}

#[test]
fn format_detection_follows_the_left_document() {
    assert_eq!(choose_format(FormatChoice::Auto, " <a/>"), Some(Format::Xml));
    assert_eq!(choose_format(FormatChoice::Auto, "hola"), None);
    assert_eq!(choose_format(FormatChoice::Json, "<a/>"), Some(Format::Json));
    assert!(matches!(compare_documents("hola", "{}", FormatChoice::Auto), CompareOutcome::Undetected));
}

#[test]
fn parse_errors_name_the_side() {
    assert!(matches!(
        compare_documents("{", "{}", FormatChoice::Auto),
        CompareOutcome::LeftInvalid(ParseError::InvalidJson(_))
    ));
    assert!(matches!(
        compare_documents("{}", "{", FormatChoice::Auto),
        CompareOutcome::RightInvalid(ParseError::InvalidJson(_))
    ));
    assert!(matches!(
        compare_documents("<a>", "<a/>", FormatChoice::Xml),
        CompareOutcome::LeftInvalid(ParseError::InvalidXml(_))
    ));
}

#[test]
fn documents_are_compared_in_their_format() {
    match compare_documents(r#"{"a": 1}"#, r#"{"a": 2}"#, FormatChoice::Auto) {
        CompareOutcome::Compared(d, f) => {
            assert_eq!(f, Format::Json);
            assert_eq!(d.changed.len(), 1);
        },
        _ => panic!("expected a comparison"),
    }
    match compare_documents("<a>1</a>", "<a>2</a>", FormatChoice::Auto) {
        CompareOutcome::Compared(d, f) => {
            assert_eq!(f, Format::Xml);
            assert_eq!(d.changed[0].path, "a.[text]");
        },
        _ => panic!("expected a comparison"),
    }
}

#[test]
fn long_multibyte_text_cut_inside_a_character_is_incomparable() {
    let long = format!("<r><c>{}</c></r>", "é".repeat(30));
    assert!(matches!(compare_documents("<r/>", &long, FormatChoice::Xml), CompareOutcome::Incomparable));
    let long_ascii = format!("<r><c>{}</c></r>", "e".repeat(60));
    match compare_documents("<r/>", &long_ascii, FormatChoice::Xml) {
        CompareOutcome::Compared(d, _) => {
            assert_eq!(d.added[0].right.as_deref(), Some(format!("<c> \"{}...\"", "e".repeat(47)).as_str()));
        },
        _ => panic!("expected a comparison"),
    }
}

#[test]
fn formatting_skips_blank_documents() {
    match format_documents(r#"{"b":1}"#, "  ", FormatChoice::Auto) {
        FormatOutcome::Formatted { left, right, format } => {
            assert_eq!(format, Format::Json);
            assert_eq!(left.as_deref(), Some("{\n  \"b\": 1\n}"));
            assert!(right.is_none());
        },
        _ => panic!("expected formatted documents"),
    }
    assert!(matches!(format_documents("x", "{}", FormatChoice::Auto), FormatOutcome::Undetected));
    match format_documents("{}", "{", FormatChoice::Json) {
        FormatOutcome::RightFailed { left, error } => {
            assert_eq!(left.as_deref(), Some("{}"));
            assert!(matches!(error, ParseError::InvalidJson(_)));
        },
        _ => panic!("expected the right document to fail"),
    }
}

#[test]
fn closing_asks_only_with_content() {
    assert_eq!(on_close_request(false, " ", ""), CloseDecision::Proceed);
    assert_eq!(on_close_request(false, "{}", ""), CloseDecision::Ask);
    assert_eq!(on_close_request(true, "{}", "{}"), CloseDecision::Proceed);
    assert_eq!(close_choice("export_html"), CloseChoice::ExportHtml);
    assert_eq!(close_choice("cancel"), CloseChoice::Cancel);
    assert!(closes_window(CloseChoice::SaveHistory));
    assert!(!closes_window(CloseChoice::Cancel));
}

#[test]
fn opened_files_fill_one_or_both_editors() {
    assert_eq!(open_plan(&vec![]), OpenPlan::Nothing);
    assert_eq!(open_plan(&vec!["a.json".to_string()]), OpenPlan::Single("a.json".to_string()));
    assert_eq!(
        open_plan(&vec!["a.xml".to_string(), "b.xml".to_string(), "c.xml".to_string()]),
        OpenPlan::Pair("a.xml".to_string(), "b.xml".to_string())
    );
}

#[test]
fn left_document_failing_to_format_is_reported() {
    assert!(matches!(
        format_documents("{", "{}", FormatChoice::Json),
        FormatOutcome::LeftFailed(ParseError::InvalidJson(_))
    ));
}

#[test]
fn keyboard_shortcuts_need_control() {
    assert_eq!(shortcut_action(true, false, Key::Char('o')), Some(Shortcut::OpenLeft));
    assert_eq!(shortcut_action(true, true, Key::Char('O')), Some(Shortcut::OpenRight));
    assert_eq!(shortcut_action(true, true, Key::Char('o')), Some(Shortcut::OpenRight));
    assert_eq!(shortcut_action(true, false, Key::Return), Some(Shortcut::Compare));
    assert_eq!(shortcut_action(true, false, Key::Char('s')), Some(Shortcut::SaveSession));
    assert_eq!(shortcut_action(true, false, Key::Char('h')), Some(Shortcut::ToggleHistory));
    assert_eq!(shortcut_action(true, false, Key::Char('f')), Some(Shortcut::ToggleSearch));
    assert_eq!(shortcut_action(false, false, Key::Char('o')), None);
    assert_eq!(shortcut_action(true, true, Key::Char('s')), None);
    assert_eq!(shortcut_action(true, false, Key::Other), None);
}

#[test]
fn opened_files_get_their_syntax() {
    assert_eq!(language_for_extension("json"), Some("json"));
    assert_eq!(language_for_extension("xml"), Some("xml"));
    assert_eq!(language_for_extension("txt"), None);
}
