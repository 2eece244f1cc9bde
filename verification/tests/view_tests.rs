use rustdiff::diff_engine::diff_json;
use rustdiff::graph::{build_json_graph, build_xml_graph, GraphNode, GraphRow, ValueKind};
use rustdiff::parser::{parse_json, parse_xml};
use rustdiff::view::{contains_text, filter_items, next_match, node_char_width, node_detail_text, search_matches};

fn row(key: &str, value: &str) -> GraphRow {
    GraphRow { key: key.to_string(), value: value.to_string(), kind: ValueKind::String }
}

#[test]
fn filters_keep_only_enabled_kinds_in_order() {
    let left = parse_json(r#"{"a": 1, "b": 2}"#).unwrap();
    let right = parse_json(r#"{"a": 10, "c": 3}"#).unwrap();
    let result = diff_json(&left, &right);
    let all = result.all_items();
    let paths = |v: Vec<&rustdiff::diff_engine::DiffItem>| v.iter().map(|i| i.path.clone()).collect::<Vec<_>>();
    assert_eq!(paths(filter_items(&all, (true, true, true))), vec!["$.a", "$.b", "$.c"]);
    assert_eq!(paths(filter_items(&all, (true, false, false))), vec!["$.c"]);
    assert_eq!(paths(filter_items(&all, (false, true, true))), vec!["$.a", "$.b"]);
    assert!(filter_items(&all, (false, false, false)).is_empty());
}

#[test]
fn node_detail_lists_label_and_rows_without_trailing_space() {
    let node = GraphNode {
        id: 0,
        label: "persona".into(),
        rows: vec![row("@id", "1"), row("", "suelto  ")],
        depth: 0,
    };
    assert_eq!(node_detail_text(&node), "persona\n@id: 1\nsuelto");
    let bare = GraphNode { id: 1, label: String::new(), rows: vec![], depth: 0 };
    assert_eq!(node_detail_text(&bare), "");
}

#[test]
fn search_ignores_case_and_surrounding_space() {
    let graph = build_xml_graph(&parse_xml("<lista><Item>Alfa</Item><otro>beta</otro></lista>").unwrap());
    assert_eq!(search_matches(&graph, "  ALFA "), vec![1]);
    assert_eq!(search_matches(&graph, "item"), vec![0, 1]);
    assert!(search_matches(&graph, "   ").is_empty());
    assert!(search_matches(&graph, "zeta").is_empty());
}

#[test]
fn substring_search() {
    assert!(contains_text("hola mundo", "a m"));
    assert!(contains_text("abc", ""));
    assert!(!contains_text("abc", "abcd"));
    assert!(!contains_text("abc", "bd"));
}

#[test]
fn matches_cycle() {
    assert_eq!(next_match(0, 3), 1);
    assert_eq!(next_match(2, 3), 0);
    assert_eq!(next_match(0, 1), 0);
}

#[test]
fn node_width_in_characters() {
    let graph = build_json_graph(&parse_json(r#"{"clave": "valor", "n": 1}"#).unwrap());
    assert_eq!(node_char_width(&graph.nodes[0]), 14);
    let empty = GraphNode { id: 0, label: String::new(), rows: vec![], depth: 0 };
    assert_eq!(node_char_width(&empty), 1);
}

#[test]
fn next_match_wraps_from_any_index() {
    assert_eq!(next_match(5, 3), 0);
    assert_eq!(next_match(4, 3), 2);
    assert_eq!(next_match(usize::MAX, 2), 0);
    assert_eq!(next_match(usize::MAX, 3), 1);
}
