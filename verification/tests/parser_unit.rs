use rustdiff::json::{json_eq, JsonValue};
use rustdiff::parser::{
    auto_detect_format, format_pretty, parse_json, parse_xml, Format, ParseError, XmlChild, XmlNode,
};

fn member<'a>(v: &'a JsonValue, key: &str) -> &'a JsonValue {
    match v {
        JsonValue::Object(members) => &members.iter().find(|(k, _)| k == key).unwrap().1,
        _ => panic!("not an object"),
    }
}

fn item(v: &JsonValue, i: usize) -> &JsonValue {
    match v {
        JsonValue::Array(items) => &items[i],
        _ => panic!("not an array"),
    }
}

fn is_str(v: &JsonValue, s: &str) -> bool {
    matches!(v, JsonValue::Str(t) if t == s)
}

fn is_number(v: &JsonValue, n: &str) -> bool {
    matches!(v, JsonValue::Number(t) if t == n)
}

#[test]
fn detecta_json_objeto() {
    assert_eq!(auto_detect_format(r#"{"a": 1}"#).unwrap(), Format::Json);
}

#[test]
fn detecta_json_array() {
    assert_eq!(auto_detect_format("[1, 2, 3]").unwrap(), Format::Json);
}

#[test]
fn detecta_json_con_espacios() {
    assert_eq!(auto_detect_format("  \n  { }").unwrap(), Format::Json);
}

#[test]
fn detecta_xml() {
    assert_eq!(auto_detect_format("<root/>").unwrap(), Format::Xml);
}

#[test]
fn detecta_xml_con_declaracion() {
    let xml = r#"<?xml version="1.0"?><root/>"#;
    assert_eq!(auto_detect_format(xml).unwrap(), Format::Xml);
}

#[test]
fn error_formato_desconocido() {
    assert!(matches!(auto_detect_format("hola mundo"), Err(ParseError::UnknownFormat)));
}

#[test]
fn error_entrada_vacia() {
    assert!(matches!(auto_detect_format(""), Err(ParseError::EmptyInput)));
    assert!(matches!(auto_detect_format("   \n\t  "), Err(ParseError::EmptyInput)));
}

#[test]
fn parsea_json_simple() {
    let json = r#"{"nombre": "Juan", "edad": 30}"#;
    let value = parse_json(json).unwrap();
    assert!(is_str(member(&value, "nombre"), "Juan"));
    assert!(is_number(member(&value, "edad"), "30"));
}

#[test]
fn parsea_json_anidado() {
    let json = r#"{
        "persona": {
            "nombre": "Ana",
            "hobbies": ["leer", "correr"]
        }
    }"#;
    let value = parse_json(json).unwrap();
    let persona = member(&value, "persona");
    assert!(is_str(member(persona, "nombre"), "Ana"));
    assert!(is_str(item(member(persona, "hobbies"), 0), "leer"));
    assert!(is_str(item(member(persona, "hobbies"), 1), "correr"));
}

#[test]
fn parsea_json_array_raiz() {
    let json = r#"[1, "dos", null, true]"#;
    let value = parse_json(json).unwrap();
    assert!(matches!(value, JsonValue::Array(_)));
    assert!(is_number(item(&value, 0), "1"));
    assert!(is_str(item(&value, 1), "dos"));
    assert!(matches!(item(&value, 2), JsonValue::Null));
    assert!(matches!(item(&value, 3), JsonValue::Bool(true)));
}

#[test]
fn error_json_invalido() {
    let json = r#"{"nombre": }"#;
    assert!(parse_json(json).is_err());
}

#[test]
fn error_json_vacio() {
    assert!(parse_json("").is_err());
}

#[test]
fn parsea_xml_simple() {
    let xml = "<persona><nombre>Juan</nombre><edad>30</edad></persona>";
    let node = parse_xml(xml).unwrap();
    assert_eq!(node.tag, "persona");
    assert_eq!(node.child_nodes().len(), 2);
    assert_eq!(node.find_child("nombre").unwrap().text_content(), "Juan");
    assert_eq!(node.find_child("edad").unwrap().text_content(), "30");
}

#[test]
fn parsea_xml_con_atributos() {
    let xml = r#"<libro isbn="978-3-16" idioma="es"><titulo>Rust en Acción</titulo></libro>"#;
    let node = parse_xml(xml).unwrap();
    assert_eq!(node.tag, "libro");
    assert_eq!(node.get_attribute("isbn"), Some("978-3-16"));
    assert_eq!(node.get_attribute("idioma"), Some("es"));
    assert_eq!(node.find_child("titulo").unwrap().text_content(), "Rust en Acción");
}

#[test]
fn parsea_xml_anidado() {
    let xml = r#"
    <biblioteca>
        <libro>
            <titulo>Don Quijote</titulo>
            <autor>Cervantes</autor>
        </libro>
        <libro>
            <titulo>Cien Años de Soledad</titulo>
            <autor>García Márquez</autor>
        </libro>
    </biblioteca>
    "#;
    let node = parse_xml(xml).unwrap();
    assert_eq!(node.tag, "biblioteca");
    let libros = node.child_nodes();
    assert_eq!(libros.len(), 2);
    assert_eq!(libros[0].find_child("titulo").unwrap().text_content(), "Don Quijote");
    assert_eq!(libros[1].find_child("autor").unwrap().text_content(), "García Márquez");
}

#[test]
fn parsea_xml_etiqueta_autocerrada() {
    let xml = r#"<config><opcion activa="true"/></config>"#;
    let node = parse_xml(xml).unwrap();
    let opcion = node.find_child("opcion").unwrap();
    assert_eq!(opcion.get_attribute("activa"), Some("true"));
    assert!(opcion.children.is_empty());
}

#[test]
fn parsea_xml_con_declaracion() {
    let xml = r#"<?xml version="1.0" encoding="UTF-8"?><raiz>contenido</raiz>"#;
    let node = parse_xml(xml).unwrap();
    assert_eq!(node.tag, "raiz");
    assert_eq!(node.text_content(), "contenido");
}

#[test]
fn error_xml_invalido() {
    let xml = "<abierto>sin cierre";
    assert!(parse_xml(xml).is_err());
}

#[test]
fn error_xml_vacio() {
    assert!(parse_xml("").is_err());
    assert!(parse_xml("   ").is_err());
}

#[test]
fn pretty_print_json() {
    let json = r#"{"b":2,"a":1}"#;
    let pretty = format_pretty(json, Format::Json).unwrap();
    assert!(pretty.contains('\n'));
    assert!(pretty.contains("  "));
    let reparsed = parse_json(&pretty).unwrap();
    assert!(is_number(member(&reparsed, "a"), "1"));
    assert!(is_number(member(&reparsed, "b"), "2"));
    assert!(json_eq(&reparsed, &parse_json(json).unwrap()));
}

#[test]
fn pretty_print_xml() {
    let xml = "<root><a>1</a><b>2</b></root>";
    let pretty = format_pretty(xml, Format::Xml).unwrap();
    assert!(pretty.contains('\n'));
    let node = parse_xml(&pretty).unwrap();
    assert_eq!(node.tag, "root");
    assert_eq!(node.find_child("a").unwrap().text_content(), "1");
}

#[test]
fn error_pretty_formato_incorrecto() {
    assert!(format_pretty("<root/>", Format::Json).is_err());
}

#[test]
fn xml_node_text_content_vacio() {
    let node = XmlNode { tag: "vacio".into(), attributes: vec![], children: vec![] };
    assert_eq!(node.text_content(), "");
}

#[test]
fn xml_node_find_child_inexistente() {
    let node = XmlNode {
        tag: "padre".into(),
        attributes: vec![],
        children: vec![XmlChild::Node(XmlNode { tag: "hijo".into(), attributes: vec![], children: vec![] })],
    };
    assert!(node.find_child("inexistente").is_none());
    assert!(node.find_child("hijo").is_some());
}

#[test]
fn xml_node_get_attribute_inexistente() {
    let node = XmlNode {
        tag: "test".into(),
        attributes: vec![("clave".into(), "valor".into())],
        children: vec![],
    };
    assert_eq!(node.get_attribute("clave"), Some("valor"));
    assert_eq!(node.get_attribute("otra"), None);
}

#[test]
fn format_display() {
    assert_eq!(Format::Json.name(), "JSON");
    assert_eq!(Format::Xml.name(), "XML");
}

#[test]
fn error_messages() {
    assert_eq!(ParseError::EmptyInput.message(), "the document is empty");
    assert_eq!(
        ParseError::UnknownFormat.message(),
        "unknown format: the text does not look like valid JSON or XML"
    );
    assert_eq!(
        ParseError::InputTooLarge { limit: 10, actual: 12 }.message(),
        "document exceeds the 10-byte limit (is 12 bytes)"
    );
    assert_eq!(ParseError::InvalidXml("x".to_string()).message(), "invalid XML: x");
    match parse_json("{") {
        Err(e @ ParseError::InvalidJson(_)) => assert!(e.message().starts_with("invalid JSON: ")),
        _ => panic!("expected invalid JSON"),
    }
}
