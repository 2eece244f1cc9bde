use rustdiff::diff_engine::{diff_json, DiffItem, DiffKind};
use rustdiff::highlight::{
    clean_search_value, extract_key_from_path, extract_last_segment, item_search_targets, line_highlights,
    line_marks, semantic_highlights, LineChange, LineMark, Mark, Side,
};
use rustdiff::parser::parse_json;

#[test]
fn clean_search_value_quita_comillas() {
    assert_eq!(clean_search_value("\"hola\""), "hola");
    assert_eq!(clean_search_value("42"), "42");
    assert_eq!(clean_search_value("  \"test\"  "), "test");
    assert_eq!(clean_search_value("null"), "null");
}

#[test]
fn extract_key_ruta_json() {
    assert_eq!(extract_key_from_path("$.usuario.perfil.ciudad"), "ciudad");
    assert_eq!(extract_key_from_path("$.data"), "data");
    assert_eq!(extract_key_from_path("$"), "$");
}

#[test]
fn extract_key_ruta_con_indice() {
    assert_eq!(extract_key_from_path("$.users[0].nombre"), "nombre");
    assert_eq!(extract_key_from_path("$.items[2]"), "items");
}

#[test]
fn extract_key_ruta_xml_atributo() {
    assert_eq!(extract_key_from_path("server[@version]"), "version");
    assert_eq!(extract_key_from_path("config.db[@host]"), "host");
}

#[test]
fn extract_key_ruta_xml_texto() {
    assert_eq!(extract_key_from_path("config.db.host.[text]"), "host");
    assert_eq!(extract_key_from_path("root.[text]"), "root");
}

#[test]
fn last_segment_and_lone_quote() {
    assert_eq!(extract_last_segment("a.b.c"), "c");
    assert_eq!(extract_last_segment("abc"), "abc");
    assert_eq!(clean_search_value("\""), "\"");
    assert_eq!(extract_key_from_path("$[0]"), "$");
}

#[test]
fn semantic_marks_per_side() {
    let left = parse_json(r#"{"a": "x", "b": 2}"#).unwrap();
    let right = parse_json(r#"{"a": "y", "c": 3}"#).unwrap();
    let result = diff_json(&left, &right);
    let l = semantic_highlights(&result, Side::Left);
    assert_eq!(
        l,
        vec![
            ("2".to_string(), Mark::Removed),
            ("\"b\"".to_string(), Mark::Removed),
            ("x".to_string(), Mark::Changed),
            ("\"a\"".to_string(), Mark::Changed),
        ]
    );
    let r = semantic_highlights(&result, Side::Right);
    assert_eq!(
        r,
        vec![
            ("3".to_string(), Mark::Added),
            ("\"c\"".to_string(), Mark::Added),
            ("y".to_string(), Mark::Changed),
            ("\"a\"".to_string(), Mark::Changed),
        ]
    );
}

#[test]
fn search_targets_fall_back_to_the_key() {
    let item = DiffItem { path: "root.[text]".into(), kind: DiffKind::Changed, left: None, right: None };
    assert_eq!(item_search_targets(&item), (Some("root".to_string()), Some("root".to_string())));
    let item = DiffItem { path: "$.a".into(), kind: DiffKind::Added, left: None, right: Some("\"v\"".into()) };
    assert_eq!(item_search_targets(&item), (None, Some("v".to_string())));
}

#[test]
fn line_marks_count_lines_per_side() {
    let marks = line_marks(&vec![LineChange::Equal, LineChange::Delete, LineChange::Insert, LineChange::Insert]);
    assert_eq!(
        marks,
        vec![
            LineMark { side: Side::Left, line: 1, mark: Mark::Removed },
            LineMark { side: Side::Right, line: 1, mark: Mark::Added },
            LineMark { side: Side::Right, line: 2, mark: Mark::Added },
        ]
    );
}

#[test]
fn line_highlights_of_two_texts() {
    let marks = line_highlights("a\nb\nc\n", "a\nB\nc\n");
    assert_eq!(
        marks,
        vec![
            LineMark { side: Side::Left, line: 1, mark: Mark::Removed },
            LineMark { side: Side::Right, line: 1, mark: Mark::Added },
        ]
    );
    assert!(line_highlights("same\n", "same\n").is_empty());
}
