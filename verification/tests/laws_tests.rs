use rustdiff::diff_engine::{diff_json, diff_xml};
use rustdiff::export::escape_html;
use rustdiff::graph::{build_json_graph, build_xml_graph, truncate_chars};
use rustdiff::json::compact_string;
use rustdiff::json_diff::value_to_compact_string;
use rustdiff::parser::{parse_json, parse_xml};
use rustdiff::xml_diff::xml_comparable;

#[test]
fn diff_is_empty_exactly_for_equal_documents() {
    let docs = [r#"{"a": [1, {"b": null}], "c": "x"}"#, "[]", "{}", "3", r#"{"a": [1, {"b": 0}], "c": "x"}"#];
    for (i, l) in docs.iter().enumerate() {
        for (j, r) in docs.iter().enumerate() {
            let result = diff_json(&parse_json(l).unwrap(), &parse_json(r).unwrap());
            assert_eq!(result.is_empty(), i == j, "{l} vs {r}");
        }
    }
}

#[test]
fn a_tree_compared_with_itself_has_no_difference() {
    let text = "<r a=\"1\" b=\"2\"><x>uno</x><x>dos<y/></x>texto</r>";
    let tree = parse_xml(text).unwrap();
    let again = parse_xml(text).unwrap();
    assert!(xml_comparable(&tree, &again));
    assert!(diff_xml(&tree, &again).is_empty());
}

#[test]
fn all_items_is_a_sorted_permutation() {
    let left = parse_json(r#"{"z": 1, "b": [1, 2, 3], "m": {"q": 1}}"#).unwrap();
    let right = parse_json(r#"{"a": 1, "b": [1], "m": {"q": 2}}"#).unwrap();
    let result = diff_json(&left, &right);
    let items = result.all_items();
    assert_eq!(items.len(), result.total());
    for pair in items.windows(2) {
        assert!(pair[0].path <= pair[1].path);
    }
    for item in result.added.iter().chain(result.removed.iter()).chain(result.changed.iter()) {
        assert!(items.iter().any(|i| std::ptr::eq(*i, item)));
    }
}

#[test]
fn graph_ids_are_indices_and_edges_point_forward() {
    let json = parse_json(r#"{"a": [{"b": 1}, {"c": [1, {"d": 2}]}], "e": {"f": {}}}"#).unwrap();
    let xml = parse_xml("<a><b><c/></b><b/><d x=\"1\">t</d></a>").unwrap();
    for graph in [build_json_graph(&json), build_xml_graph(&xml)] {
        for (i, node) in graph.nodes.iter().enumerate() {
            assert_eq!(node.id, i);
        }
        for edge in &graph.edges {
            assert!(edge.from < edge.to && edge.to < graph.nodes.len());
        }
    }
}

#[test]
fn escaped_text_has_no_markup_characters() {
    let out = escape_html("<a href=\"x\">&</a>");
    assert!(!out.contains('<') && !out.contains('>') && !out.contains('"'));
}

#[test]
fn truncation_keeps_at_most_the_limit() {
    assert_eq!(truncate_chars("abcdef", 4), "abc…");
    assert_eq!(truncate_chars("abcd", 4), "abcd");
    assert_eq!(truncate_chars("abc", 0), "…");
}

#[test]
fn strings_are_written_as_json_literals() {
    let v = parse_json(r#"{"a": "x\"y\n", "b": [true, null, 1.5]}"#).unwrap();
    assert_eq!(compact_string(&v), r#"{"a":"x\"y\n","b":[true,null,1.5]}"#);
    let s = parse_json(r#""q\"""#).unwrap();
    assert_eq!(value_to_compact_string(&s), "\"q\"\"");
}

#[test]
fn a_truncated_graph_is_full() {
    let elems: Vec<String> = (0..rustdiff::graph::MAX_GRAPH_NODES + 10).map(|i| format!(r#"{{"i": {i}}}"#)).collect();
    let graph = build_json_graph(&parse_json(&format!("[{}]", elems.join(","))).unwrap());
    assert!(graph.truncated);
    assert_eq!(graph.nodes.len(), rustdiff::graph::MAX_GRAPH_NODES);
    let small = build_json_graph(&parse_json(r#"[{"i": 1}]"#).unwrap());
    assert!(!small.truncated);
}

#[test]
fn swapping_the_documents_swaps_the_sides() {
    let left = parse_json(r#"{"z": 1, "b": [1, 2, 3], "m": {"q": 1}, "s": "x"}"#).unwrap();
    let right = parse_json(r#"{"a": 1, "b": [1], "m": {"q": 2}, "s": 4}"#).unwrap();
    let there = diff_json(&left, &right);
    let back = diff_json(&right, &left);
    assert!(there.total() > 0);
    assert_eq!(back.added.len(), there.removed.len());
    assert_eq!(back.removed.len(), there.added.len());
    assert_eq!(back.changed.len(), there.changed.len());
    for (b, t) in back.added.iter().zip(there.removed.iter()) {
        assert_eq!((&b.path, &b.left, &b.right), (&t.path, &t.right, &t.left));
    }
    for (b, t) in back.removed.iter().zip(there.added.iter()) {
        assert_eq!((&b.path, &b.left, &b.right), (&t.path, &t.right, &t.left));
    }
    for (b, t) in back.changed.iter().zip(there.changed.iter()) {
        assert_eq!((&b.path, &b.left, &b.right), (&t.path, &t.right, &t.left));
    }
}

#[test]
fn graph_edges_go_one_column_right_from_an_existing_row() {
    let value = parse_json(r#"{"a": {"b": [1, {"c": [true, [2, {"d": null}]]}]}, "e": [[{"f": 1}], 3], "g": "h"}"#).unwrap();
    let tree = parse_xml("<r k=\"v\"><x>uno</x><x><y/><z>t</z></x><w/></r>").unwrap();
    for graph in [build_json_graph(&value), build_xml_graph(&tree)] {
        assert!(!graph.edges.is_empty());
        for e in &graph.edges {
            let from = &graph.nodes[e.from];
            let to = &graph.nodes[e.to];
            assert_eq!(to.depth, from.depth + 1);
            if let Some(r) = e.from_row {
                assert!(r < from.rows.len());
            }
        }
        for pair in graph.edges.windows(2) {
            assert!(pair[0].to < pair[1].to);
        }
    }
}

#[test]
fn the_two_float_zeros_are_the_same_number() {
    let left = parse_json(r#"{"a": -0.0, "b": [0.0, 1]}"#).unwrap();
    let right = parse_json(r#"{"a": 0.0, "b": [-0.0, 1.0]}"#).unwrap();
    let result = diff_json(&left, &right);
    assert_eq!(result.total(), 1);
    assert_eq!(result.changed[0].path, "$.b[1]");
}

#[test]
fn string_escapes_follow_serde_json() {
    let v = parse_json(r#"["a\\b/c\b\f\t\r\u0001\u001f\u007f é"]"#).unwrap();
    assert_eq!(compact_string(&v), "[\"a\\\\b/c\\b\\f\\t\\r\\u0001\\u001f\u{7f} é\"]");
}
