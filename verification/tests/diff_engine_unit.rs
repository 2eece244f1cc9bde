use rustdiff::diff_engine::{diff_json, diff_xml, DiffItem, DiffKind};
use rustdiff::json::JsonValue;
use rustdiff::parser::{parse_json, XmlChild, XmlNode};

fn json(text: &str) -> JsonValue {
    parse_json(text).unwrap()
}

fn node(tag: &str, attributes: Vec<(&str, &str)>, children: Vec<XmlChild>) -> XmlNode {
    XmlNode {
        tag: tag.to_string(),
        attributes: attributes.into_iter().map(|(k, v)| (k.to_string(), v.to_string())).collect(),
        children,
    }
}

fn text(t: &str) -> XmlChild {
    XmlChild::Text(t.to_string())
}

#[test]
fn json_identicos_sin_diferencias() {
    let left = json(r#"{"a": 1, "b": "dos", "c": [1, 2, 3]}"#);
    let right = json(r#"{"a": 1, "b": "dos", "c": [1, 2, 3]}"#);
    let result = diff_json(&left, &right);
    assert!(result.is_empty());
    assert_eq!(result.total(), 0);
    assert_eq!(result.summary(), "Los documentos son idénticos");
}

#[test]
fn json_valor_cambiado() {
    let left = json(r#"{"nombre": "Juan", "edad": 30}"#);
    let right = json(r#"{"nombre": "Juan", "edad": 31}"#);
    let result = diff_json(&left, &right);
    assert_eq!(result.changed.len(), 1);
    assert_eq!(result.changed[0].path, "$.edad");
    assert_eq!(result.changed[0].left.as_deref(), Some("30"));
    assert_eq!(result.changed[0].right.as_deref(), Some("31"));
}

#[test]
fn json_tipo_cambiado() {
    let left = json(r#"{"valor": 42}"#);
    let right = json(r#"{"valor": "cuarenta y dos"}"#);
    let result = diff_json(&left, &right);
    assert_eq!(result.changed.len(), 1);
    assert_eq!(result.changed[0].path, "$.valor");
}

#[test]
fn json_null_a_valor() {
    let left = json(r#"{"campo": null}"#);
    let right = json(r#"{"campo": "ahora tiene valor"}"#);
    let result = diff_json(&left, &right);
    assert_eq!(result.changed.len(), 1);
}

#[test]
fn json_clave_anadida() {
    let left = json(r#"{"a": 1}"#);
    let right = json(r#"{"a": 1, "b": 2}"#);
    let result = diff_json(&left, &right);
    assert_eq!(result.added.len(), 1);
    assert_eq!(result.added[0].path, "$.b");
    assert_eq!(result.added[0].right.as_deref(), Some("2"));
    assert!(result.removed.is_empty());
    assert!(result.changed.is_empty());
}

#[test]
fn json_clave_eliminada() {
    let left = json(r#"{"a": 1, "b": 2}"#);
    let right = json(r#"{"a": 1}"#);
    let result = diff_json(&left, &right);
    assert_eq!(result.removed.len(), 1);
    assert_eq!(result.removed[0].path, "$.b");
    assert_eq!(result.removed[0].left.as_deref(), Some("2"));
}

#[test]
fn json_multiples_cambios() {
    let left = json(r#"{"a": 1, "b": 2, "c": 3}"#);
    let right = json(r#"{"a": 1, "b": 20, "d": 4}"#);
    let result = diff_json(&left, &right);
    assert_eq!(result.changed.len(), 1);
    assert_eq!(result.removed.len(), 1);
    assert_eq!(result.added.len(), 1);
    assert_eq!(result.total(), 3);
}

#[test]
fn json_array_elemento_cambiado() {
    let left = json("[1, 2, 3]");
    let right = json("[1, 99, 3]");
    let result = diff_json(&left, &right);
    assert_eq!(result.changed.len(), 1);
    assert_eq!(result.changed[0].path, "$[1]");
}

#[test]
fn json_array_mas_largo_derecho() {
    let left = json("[1, 2]");
    let right = json("[1, 2, 3, 4]");
    let result = diff_json(&left, &right);
    assert_eq!(result.added.len(), 2);
    assert_eq!(result.added[0].path, "$[2]");
    assert_eq!(result.added[1].path, "$[3]");
}

#[test]
fn json_array_mas_largo_izquierdo() {
    let left = json("[1, 2, 3]");
    let right = json("[1]");
    let result = diff_json(&left, &right);
    assert_eq!(result.removed.len(), 2);
}

#[test]
fn json_anidado_cambio_profundo() {
    let left = json(r#"{"usuario": {"perfil": {"nombre": "Ana", "ciudad": "Madrid"}}}"#);
    let right = json(r#"{"usuario": {"perfil": {"nombre": "Ana", "ciudad": "Barcelona"}}}"#);
    let result = diff_json(&left, &right);
    assert_eq!(result.changed.len(), 1);
    assert_eq!(result.changed[0].path, "$.usuario.perfil.ciudad");
    assert_eq!(result.changed[0].left.as_deref(), Some("\"Madrid\""));
    assert_eq!(result.changed[0].right.as_deref(), Some("\"Barcelona\""));
}

#[test]
fn json_anidado_seccion_nueva() {
    let left = json(r#"{"config": {"debug": true}}"#);
    let right = json(r#"{"config": {"debug": true, "logging": {"level": "info"}}}"#);
    let result = diff_json(&left, &right);
    assert_eq!(result.added.len(), 1);
    assert_eq!(result.added[0].path, "$.config.logging");
    assert!(result.added[0].right.as_ref().unwrap().contains("level"));
}

#[test]
fn json_array_de_objetos() {
    let left = json(r#"[{"id": 1, "nombre": "A"}, {"id": 2, "nombre": "B"}]"#);
    let right = json(r#"[{"id": 1, "nombre": "A"}, {"id": 2, "nombre": "B-modificado"}]"#);
    let result = diff_json(&left, &right);
    assert_eq!(result.changed.len(), 1);
    assert_eq!(result.changed[0].path, "$[1].nombre");
}

#[test]
fn json_objeto_a_array() {
    let left = json(r#"{"data": {"key": "value"}}"#);
    let right = json(r#"{"data": [1, 2, 3]}"#);
    let result = diff_json(&left, &right);
    assert_eq!(result.changed.len(), 1);
    assert_eq!(result.changed[0].path, "$.data");
}

#[test]
fn json_all_items_ordenados_por_ruta() {
    let left = json(r#"{"z": 1, "a": 2, "m": 3}"#);
    let right = json(r#"{"z": 10, "a": 20, "m": 30}"#);
    let result = diff_json(&left, &right);
    let items = result.all_items();
    assert_eq!(items.len(), 3);
    assert_eq!(items[0].path, "$.a");
    assert_eq!(items[1].path, "$.m");
    assert_eq!(items[2].path, "$.z");
}

#[test]
fn diff_item_display() {
    let added = DiffItem {
        path: "$.nuevo".into(),
        kind: DiffKind::Added,
        left: None,
        right: Some("42".into()),
    };
    assert_eq!(added.line(), "[+] $.nuevo = 42");

    let removed = DiffItem {
        path: "$.viejo".into(),
        kind: DiffKind::Removed,
        left: Some("\"hola\"".into()),
        right: None,
    };
    assert_eq!(removed.line(), "[-] $.viejo = \"hola\"");

    let changed = DiffItem {
        path: "$.campo".into(),
        kind: DiffKind::Changed,
        left: Some("1".into()),
        right: Some("2".into()),
    };
    assert_eq!(changed.line(), "[~] $.campo : 1 → 2");
}

#[test]
fn xml_identicos_sin_diferencias() {
    let left = node("raiz", vec![("id", "1")], vec![text("hola")]);
    let right = left.clone();
    let result = diff_xml(&left, &right);
    assert!(result.is_empty());
}

#[test]
fn xml_texto_cambiado() {
    let left = node("msg", vec![], vec![text("hola")]);
    let right = node("msg", vec![], vec![text("adiós")]);
    let result = diff_xml(&left, &right);
    assert_eq!(result.changed.len(), 1);
    assert!(result.changed[0].path.contains("[text]"));
    assert_eq!(result.changed[0].left.as_deref(), Some("hola"));
    assert_eq!(result.changed[0].right.as_deref(), Some("adiós"));
}

#[test]
fn xml_atributo_cambiado() {
    let left = node("elem", vec![("color", "rojo")], vec![]);
    let right = node("elem", vec![("color", "azul")], vec![]);
    let result = diff_xml(&left, &right);
    assert_eq!(result.changed.len(), 1);
    assert_eq!(result.changed[0].path, "elem[@color]");
}

#[test]
fn xml_atributo_anadido() {
    let left = node("elem", vec![], vec![]);
    let right = node("elem", vec![("nuevo", "valor")], vec![]);
    let result = diff_xml(&left, &right);
    assert_eq!(result.added.len(), 1);
    assert_eq!(result.added[0].path, "elem[@nuevo]");
}

#[test]
fn xml_atributo_eliminado() {
    let left = node("elem", vec![("viejo", "valor")], vec![]);
    let right = node("elem", vec![], vec![]);
    let result = diff_xml(&left, &right);
    assert_eq!(result.removed.len(), 1);
    assert_eq!(result.removed[0].path, "elem[@viejo]");
}

#[test]
fn xml_hijo_anadido() {
    let left = node("padre", vec![], vec![]);
    let right = node("padre", vec![], vec![XmlChild::Node(node("hijo", vec![], vec![text("nuevo")]))]);
    let result = diff_xml(&left, &right);
    assert_eq!(result.added.len(), 1);
    assert!(result.added[0].path.contains("hijo"));
}

#[test]
fn xml_hijo_eliminado() {
    let left = node("padre", vec![], vec![XmlChild::Node(node("hijo", vec![], vec![text("viejo")]))]);
    let right = node("padre", vec![], vec![]);
    let result = diff_xml(&left, &right);
    assert_eq!(result.removed.len(), 1);
}

#[test]
fn xml_tag_diferente() {
    let left = node("alfa", vec![], vec![]);
    let right = node("beta", vec![], vec![]);
    let result = diff_xml(&left, &right);
    assert_eq!(result.changed.len(), 1);
    assert_eq!(result.changed[0].left.as_deref(), Some("<alfa>"));
    assert_eq!(result.changed[0].right.as_deref(), Some("<beta>"));
}

#[test]
fn xml_anidado_multiples_cambios() {
    let left = node(
        "config",
        vec![("version", "1")],
        vec![
            XmlChild::Node(node("db", vec![("host", "localhost")], vec![text("5432")])),
            XmlChild::Node(node("cache", vec![], vec![text("redis")])),
        ],
    );
    let right = node(
        "config",
        vec![("version", "2")],
        vec![
            XmlChild::Node(node("db", vec![("host", "prod-server")], vec![text("5432")])),
            XmlChild::Node(node("cache", vec![], vec![text("memcached")])),
        ],
    );
    let result = diff_xml(&left, &right);
    assert_eq!(result.changed.len(), 3);
    assert_eq!(result.total(), 3);
}

#[test]
fn xml_hermanos_mismo_tag_con_indice() {
    let left = node(
        "lista",
        vec![],
        vec![
            XmlChild::Node(node("item", vec![], vec![text("uno")])),
            XmlChild::Node(node("item", vec![], vec![text("dos")])),
        ],
    );
    let right = node(
        "lista",
        vec![],
        vec![
            XmlChild::Node(node("item", vec![], vec![text("uno")])),
            XmlChild::Node(node("item", vec![], vec![text("MODIFICADO")])),
        ],
    );
    let result = diff_xml(&left, &right);
    assert_eq!(result.changed.len(), 1);
    assert!(result.changed[0].path.contains("item[1]"));
}

#[test]
fn summary_con_diferencias() {
    let left = json(r#"{"a": 1, "b": 2}"#);
    let right = json(r#"{"a": 10, "c": 3}"#);
    let result = diff_json(&left, &right);
    let summary = result.summary();
    assert!(summary.contains("3 diferencia(s)"));
    assert!(summary.contains("1 añadida(s)"));
    assert!(summary.contains("1 eliminada(s)"));
    assert!(summary.contains("1 modificada(s)"));
}
