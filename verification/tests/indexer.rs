use arxml_language_server::position::TextPos;
use arxml_language_server::xml_parser::{resolve_caret_segment, SymbolKind, XmlParser};
use arxml_language_server::xml_tree::{parse_document, ParseError, XmlAttribute, XmlDocument, XmlNode};

fn keys(parser: &XmlParser) -> Vec<String> {
    (0..parser.ident_nodes.len()).map(|i| parser.ident_nodes.key_at(i).clone()).collect()
}

fn indexed(file: &str, content: &str) -> XmlParser {
    let mut parser = XmlParser::new(file, true);
    assert!(parser.parse(content).is_ok());
    parser
}

const CHAIN: &str = "<R><P><SHORT-NAME>A</SHORT-NAME><Q><SHORT-NAME>B</SHORT-NAME><S><SHORT-NAME>C</SHORT-NAME></S></Q></P></R>";

#[test]
fn nested_identities_give_nested_paths() {
    let parser = indexed("f.arxml", CHAIN);
    assert_eq!(keys(&parser), vec!["/A", "/A/B", "/A/B/C"]);
    let b = parser.ident_nodes.get("/A/B").unwrap();
    assert_eq!(b.short_name, "B");
    assert_eq!(b.path, "/A/B");
    assert_eq!(b.node.tag_name, "Q");
    assert_eq!(b.node.file, "f.arxml");
    assert!(b.node.def_ref.is_none());
    assert!(parser.diagnostics.is_empty());
}

#[test]
fn identifier_spans_are_exact() {
    let content = "<R>\n  <P><SHORT-NAME>Ab</SHORT-NAME></P>\n</R>";
    let parser = indexed("f.arxml", content);
    let a = parser.ident_nodes.get("/Ab").unwrap();
    let start = content.find("<P>").unwrap();
    let end = content.find("</P>").unwrap() + 4;
    assert_eq!(a.node.range, start..end);
    assert_eq!(a.node.start, TextPos { row: 2, col: 3 });
    assert_eq!(a.node.end, TextPos { row: 2, col: 3 + (end - start) as u32 });
    let name_at = content.find("Ab").unwrap();
    assert_eq!(a.short_name_range, name_at..name_at + 2);
    assert_eq!(a.short_name_start, TextPos { row: 2, col: 18 });
    assert_eq!(a.short_name_end, TextPos { row: 2, col: 20 });
}

#[test]
fn reference_is_recorded_under_its_text() {
    let content = "<R><P><SHORT-NAME>A</SHORT-NAME><X-REF DEST=\"K\">/A/B</X-REF></P></R>";
    let parser = indexed("f.arxml", content);
    let list = parser.refs.get("/A/B").unwrap();
    assert_eq!(list.len(), 1);
    let r = &list[0];
    assert_eq!(r.text, "/A/B");
    assert_eq!(r.path, "/A");
    assert_eq!(r.tag_name, "X-REF");
    assert_eq!(r.file, "f.arxml");
    let at = content.find("/A/B").unwrap();
    assert_eq!(r.text_range, at..at + 4);
    let open = content.find("<X-REF").unwrap();
    assert_eq!(r.range, open..content.find("</P>").unwrap());
    assert!(parser.vendor_mapping.is_none());
}

#[test]
fn two_references_to_one_path_keep_document_order() {
    let content = "<R><A DEST=\"K\">/T</A><B DEST=\"K\">/T</B><C DEST=\"K\">/U</C></R>";
    let parser = indexed("f.arxml", content);
    let list = parser.refs.get("/T").unwrap();
    assert_eq!(list.len(), 2);
    assert_eq!(list[0].tag_name, "A");
    assert_eq!(list[1].tag_name, "B");
    assert_eq!(parser.refs.len(), 2);
}

#[test]
fn module_refinement_sets_the_vendor_alias() {
    let content = "<R><M><SHORT-NAME>MICROSAR</SHORT-NAME><REFINED-MODULE-DEF-REF DEST=\"ECUC-MODULE-DEF\">/Vendor/Module</REFINED-MODULE-DEF-REF></M></R>";
    let parser = indexed("f.arxml", content);
    assert_eq!(
        parser.vendor_mapping,
        Some(("/MICROSAR".to_string(), "/Vendor/Module".to_string()))
    );
    assert!(parser.refs.get("/Vendor/Module").is_some());
}

#[test]
fn later_alias_overwrites_earlier() {
    let content = "<R><M><SHORT-NAME>One</SHORT-NAME><REFINED-MODULE-DEF-REF DEST=\"D\">/X</REFINED-MODULE-DEF-REF></M><N><SHORT-NAME>Two</SHORT-NAME><REFINED-MODULE-DEF-REF DEST=\"D\">/Y</REFINED-MODULE-DEF-REF></N></R>";
    let parser = indexed("f.arxml", content);
    assert_eq!(parser.vendor_mapping, Some(("/Two".to_string(), "/Y".to_string())));
}

fn container(values: &str) -> String {
    format!(
        "<R><ECUC-CONTAINER-VALUE><SHORT-NAME>C</SHORT-NAME><DEFINITION-REF DEST=\"ECUC-PARAM-CONF-CONTAINER-DEF\">/Defs/Mod/Cont</DEFINITION-REF><PARAMETER-VALUES>{}</PARAMETER-VALUES></ECUC-CONTAINER-VALUE></R>",
        values
    )
}

fn value(tag: &str, dest: &str, name: &str, literal: &str) -> String {
    let child = if tag == "ECUC-REFERENCE-VALUE" { "VALUE-REF" } else { "VALUE" };
    format!(
        "<{t}><DEFINITION-REF DEST=\"{d}\">/Defs/Mod/Cont/{n}</DEFINITION-REF><{c}>{l}</{c}></{t}>",
        t = tag,
        d = dest,
        n = name,
        c = child,
        l = literal
    )
}

#[test]
fn container_captures_its_definition() {
    let parser = indexed("f.arxml", &container(""));
    let c = parser.ident_nodes.get("/C").unwrap();
    assert_eq!(c.node.def_ref.as_deref(), Some("/Defs/Mod/Cont"));
    assert_eq!(c.node.tag_name, "ECUC-CONTAINER-VALUE");
    assert!(c.values.is_empty());
}

#[test]
fn value_kinds_follow_tag_and_definition() {
    let values = [
        value("ECUC-TEXTUAL-PARAM-VALUE", "ECUC-ENUMERATION-PARAM-DEF", "E", "RED"),
        value("ECUC-TEXTUAL-PARAM-VALUE", "ECUC-FUNCTION-NAME-DEF", "F", "Cbk"),
        value("ECUC-TEXTUAL-PARAM-VALUE", "ECUC-STRING-PARAM-DEF", "S", "txt"),
        value("ECUC-NUMERICAL-PARAM-VALUE", "ECUC-BOOLEAN-PARAM-DEF", "B", "true"),
        value("ECUC-NUMERICAL-PARAM-VALUE", "ECUC-INTEGER-PARAM-DEF", "N", "42"),
        value("ECUC-REFERENCE-VALUE", "ECUC-REFERENCE-DEF", "V", "/A/B"),
    ]
    .concat();
    let parser = indexed("f.arxml", &container(&values));
    let c = parser.ident_nodes.get("/C").unwrap();
    let got: Vec<(String, String, SymbolKind, String)> = c
        .values
        .iter()
        .map(|v| (v.short_name.clone(), v.value.clone(), v.typ, v.path.clone()))
        .collect();
    let want = [
        ("E", "RED", SymbolKind::Enum),
        ("F", "Cbk", SymbolKind::Function),
        ("S", "txt", SymbolKind::String),
        ("B", "true", SymbolKind::Boolean),
        ("N", "42", SymbolKind::Number),
        ("V", "/A/B", SymbolKind::Variable),
    ];
    assert_eq!(got.len(), want.len());
    for (g, w) in got.iter().zip(want.iter()) {
        assert_eq!(g.0, w.0);
        assert_eq!(g.1, w.1);
        assert_eq!(g.2, w.2);
        assert_eq!(g.3, format!("/C/{}", w.0));
    }
    assert_eq!(c.values[0].node.def_ref.as_deref(), Some("/Defs/Mod/Cont/E"));
}

#[test]
fn reference_value_without_marker_keeps_its_literal() {
    let content = "<R><P><SHORT-NAME>A</SHORT-NAME><ECUC-REFERENCE-VALUE><DEFINITION-REF>/D/V</DEFINITION-REF><VALUE-REF>/T</VALUE-REF></ECUC-REFERENCE-VALUE></P></R>";
    let parser = indexed("f.arxml", content);
    let a = parser.ident_nodes.get("/A").unwrap();
    assert_eq!(a.values.len(), 1);
    assert_eq!(a.values[0].short_name, "V");
    assert_eq!(a.values[0].value, "/T");
    assert_eq!(a.values[0].typ, SymbolKind::Variable);
}

#[test]
fn value_goes_to_the_enclosing_identifier() {
    let inner = value("ECUC-NUMERICAL-PARAM-VALUE", "ECUC-INTEGER-PARAM-DEF", "N", "1");
    let content = format!(
        "<R><P><SHORT-NAME>A</SHORT-NAME><W><Q><SHORT-NAME>B</SHORT-NAME></Q></W>{}</P></R>",
        inner
    );
    let parser = indexed("f.arxml", &content);
    assert_eq!(parser.ident_nodes.get("/A").unwrap().values.len(), 1);
    assert_eq!(parser.ident_nodes.get("/A/B").unwrap().values.len(), 0);
}

#[test]
fn value_without_enclosing_identifier_is_dropped() {
    let inner = value("ECUC-NUMERICAL-PARAM-VALUE", "ECUC-INTEGER-PARAM-DEF", "N", "1");
    let parser = indexed("f.arxml", &format!("<R>{}</R>", inner));
    assert_eq!(parser.ident_nodes.len(), 0);
}

#[test]
fn missing_texts_skip_the_node_and_are_recorded() {
    let content = "<R>\n<P><SHORT-NAME></SHORT-NAME><Q><SHORT-NAME>B</SHORT-NAME></Q></P>\n<X DEST=\"K\"></X>\n<ECUC-TEXTUAL-PARAM-VALUE><DEFINITION-REF/></ECUC-TEXTUAL-PARAM-VALUE></R>";
    let parser = indexed("f.arxml", content);
    assert_eq!(keys(&parser), vec!["/B"]);
    assert_eq!(parser.refs.len(), 0);
    assert_eq!(
        parser.diagnostics,
        vec![
            TextPos { row: 2, col: 4 },
            TextPos { row: 3, col: 1 },
            TextPos { row: 4, col: 27 },
        ]
    );
}

#[test]
fn duplicate_path_keeps_the_later_identifier() {
    let content = "<R><P><SHORT-NAME>A</SHORT-NAME></P><Q><SHORT-NAME>A</SHORT-NAME></Q></R>";
    let parser = indexed("f.arxml", content);
    assert_eq!(keys(&parser), vec!["/A"]);
    assert_eq!(parser.ident_nodes.get("/A").unwrap().node.tag_name, "Q");
}

#[test]
fn identifiers_are_kept_in_byte_order() {
    let content = "<R><P><SHORT-NAME>b</SHORT-NAME></P><P><SHORT-NAME>B</SHORT-NAME></P><P><SHORT-NAME>a</SHORT-NAME><Q><SHORT-NAME>z</SHORT-NAME></Q></P></R>";
    let parser = indexed("f.arxml", content);
    assert_eq!(keys(&parser), vec!["/B", "/a", "/a/z", "/b"]);
}

#[test]
fn malformed_text_gives_an_error_and_no_entries() {
    let mut parser = XmlParser::new("f.arxml", false);
    match parser.parse("<R><P></R>") {
        Err(ParseError::Malformed(message)) => assert!(!message.is_empty()),
        _ => panic!("a malformed document was accepted"),
    }
    assert_eq!(parser.ident_nodes.len(), 0);
    assert!(!parser.is_ws_file);
}

#[test]
fn parsed_document_lists_nodes_in_document_order() {
    let doc = parse_document("<a x=\"1\">t<b/><!--c--></a>").ok().unwrap();
    assert_eq!(doc.len(), 5);
    assert!(doc.node(0).parent.is_none());
    assert_eq!(doc.node(1).tag_name, "a");
    assert_eq!(doc.node(1).parent, Some(0));
    assert_eq!(doc.node(1).attributes.len(), 1);
    assert_eq!(doc.attribute(1, "x").map(|s| s.as_str()), Some("1"));
    assert_eq!(doc.attribute(1, "y"), None);
    assert!(doc.node(2).is_text);
    assert_eq!(doc.node(2).text.as_deref(), Some("t"));
    assert_eq!(doc.node(2).parent, Some(1));
    assert_eq!(doc.node(3).tag_name, "b");
    assert_eq!(doc.node(1).text, None);
    assert_eq!(doc.text_of(1).map(|s| s.as_str()), Some("t"));
    assert_eq!(doc.text_of(3), None);
    assert_eq!(doc.first_child(1), Some(2));
    assert_eq!(doc.child_tagged(1, "b"), Some(3));
    assert_eq!(doc.child_tagged(1, "c"), None);
    assert_eq!(doc.node(4).text, None);
    assert_eq!((doc.node(3).start, doc.node(3).end), (10, 14));
}

fn element(parent: Option<usize>, tag: &str, start: usize, end: usize) -> XmlNode {
    XmlNode {
        parent,
        is_text: false,
        tag_name: tag.to_string(),
        attributes: Vec::new(),
        text: None,
        start,
        end,
    }
}

fn text(parent: usize, content: &str, start: usize, end: usize) -> XmlNode {
    XmlNode {
        parent: Some(parent),
        is_text: true,
        tag_name: String::new(),
        attributes: Vec::new(),
        text: Some(content.to_string()),
        start,
        end,
    }
}

#[test]
fn hand_built_document_is_indexed_like_a_parsed_one() {
    let mut doc = XmlDocument::new();
    assert_eq!(doc.push(element(None, "", 0, 40)), Some(0));
    assert_eq!(doc.push(element(Some(0), "P", 0, 40)), Some(1));
    assert_eq!(doc.push(element(Some(1), "SHORT-NAME", 3, 30)), Some(2));
    assert_eq!(doc.push(text(2, "A", 15, 16)), Some(3));
    let mut marked = element(Some(1), "T-REF", 30, 36);
    marked.attributes.push(XmlAttribute { name: "DEST".to_string(), value: "K".to_string() });
    assert_eq!(doc.push(marked), Some(4));
    assert_eq!(doc.push(text(4, "/A", 31, 33)), Some(5));
    assert_eq!(doc.push(element(Some(9), "X", 0, 0)), None);
    assert_eq!(doc.len(), 6);
    let mut parser = XmlParser::new("h.arxml", false);
    parser.traverse_xml(&doc);
    assert_eq!(keys(&parser), vec!["/A"]);
    let a = parser.ident_nodes.get("/A").unwrap();
    assert_eq!(a.node.range, 0..40);
    assert_eq!(a.short_name_range, 15..16);
    let r = &parser.refs.get("/A").unwrap()[0];
    assert_eq!(r.path, "/A");
    assert_eq!(r.text_range, 31..33);
}

#[test]
fn document_refuses_a_node_before_its_parent() {
    let nodes = vec![element(Some(1), "a", 0, 1), element(None, "", 0, 1)];
    assert!(XmlDocument::from_nodes(nodes).is_none());
    let nodes = vec![element(None, "", 0, 1), element(Some(0), "a", 0, 1)];
    assert_eq!(XmlDocument::from_nodes(nodes).unwrap().len(), 2);
}

#[test]
fn only_text_nodes_keep_characters() {
    let mut node = element(None, "a", 0, 1);
    node.text = Some("junk".to_string());
    let mut doc = XmlDocument::new();
    doc.push(node);
    assert_eq!(doc.node(0).text, None);
}

#[test]
fn caret_inside_second_segment_selects_its_prefix() {
    assert_eq!(resolve_caret_segment("/A/B/C", 3), ("/A/B".to_string(), 3));
}

#[test]
fn caret_segments_at_every_offset() {
    let want = ["/A", "/A", "/A/B", "/A/B", "/A/B/C", "/A/B/C", "/A/B/C"];
    for (caret, path) in want.iter().enumerate() {
        assert_eq!(resolve_caret_segment("/A/B/C", caret), (path.to_string(), caret));
    }
    assert_eq!(resolve_caret_segment("//Ab//Cd", 0).0, "/Ab");
    assert_eq!(resolve_caret_segment("//Ab//Cd", 3).0, "/Ab/Cd");
    assert_eq!(resolve_caret_segment("", 5), (String::new(), 5));
    assert_eq!(resolve_caret_segment("/é/x", 3).0, "/é/x");
    assert_eq!(resolve_caret_segment("/é/x", 2).0, "/é");
}

#[test]
fn queries_by_position_find_identifier_and_reference() {
    let content = "<R>\n<P><SHORT-NAME>A</SHORT-NAME>\n<Q><SHORT-NAME>B</SHORT-NAME><X-REF DEST=\"K\">/A/B/C</X-REF></Q></P></R>";
    let parser = indexed("f.arxml", content);
    assert_eq!(parser.get_ident_node_at(1, 0).unwrap().path, "/A");
    assert_eq!(parser.get_ident_node_at(2, 1).unwrap().path, "/A/B");
    assert!(parser.get_ident_node_at(0, 0).is_none());
    assert!(parser.get_ident_node_at(7, 0).is_none());
    assert!(parser.get_ident_node_at(0, 4000).is_none());
    let line = content.lines().nth(2).unwrap();
    let at = line.find("/A/B/C").unwrap();
    assert_eq!(parser.get_ref_text_at(2, at + 3), Some(("/A/B".to_string(), 3)));
    assert_eq!(parser.get_ref_text_at(2, at), Some(("/A".to_string(), 0)));
    assert_eq!(parser.get_ref_text_at(2, at + 6), Some(("/A/B/C".to_string(), 6)));
    assert_eq!(parser.get_ref_text_at(2, at + 7), None);
    assert_eq!(parser.get_ref_text_at(1, 0), None);
}

fn occurrences(parser: &XmlParser) -> Vec<(String, Vec<(std::ops::Range<usize>, String)>)> {
    (0..parser.refs.len())
        .map(|i| {
            let list = parser.refs.value_at(i);
            (
                parser.refs.key_at(i).clone(),
                list.iter().map(|r| (r.text_range.clone(), r.path.clone())).collect(),
            )
        })
        .collect()
}

const REPARSED: &str = "<R>\n<ECUC-CONTAINER-VALUE><SHORT-NAME>C</SHORT-NAME><M DEST=\"K\"></M><ECUC-NUMERICAL-PARAM-VALUE><DEFINITION-REF DEST=\"X\">/D/N</DEFINITION-REF><VALUE>1</VALUE></ECUC-NUMERICAL-PARAM-VALUE><T-REF DEST=\"K\">/C</T-REF><T-REF DEST=\"K\">/C</T-REF><REFINED-MODULE-DEF-REF DEST=\"K\">/V/M</REFINED-MODULE-DEF-REF></ECUC-CONTAINER-VALUE></R>";

#[test]
fn reparsing_the_same_text_gives_the_same_index() {
    let first = indexed("f.arxml", REPARSED);
    let second = indexed("f.arxml", REPARSED);
    assert_eq!(keys(&first), keys(&second));
    assert_eq!(occurrences(&first), occurrences(&second));
    assert_eq!(first.refs.get("/C").unwrap().len(), 2);
    assert_eq!(first.diagnostics.len(), 1);

    let mut again = indexed("f.arxml", REPARSED);
    assert!(again.parse(REPARSED).is_ok());
    assert_eq!(keys(&again), keys(&first));
    assert_eq!(occurrences(&again), occurrences(&first));
    assert_eq!(again.refs.get("/C").unwrap().len(), 2);
    assert_eq!(again.ident_nodes.get("/C").unwrap().values.len(), 1);
    assert_eq!(again.diagnostics, first.diagnostics);
    assert_eq!(again.vendor_mapping, first.vendor_mapping);
    assert_eq!(again.file, "f.arxml");
    assert!(again.is_ws_file);
}

#[test]
fn parsing_another_text_replaces_the_index() {
    let mut parser = indexed("f.arxml", REPARSED);
    assert!(parser.parse("<R><P><SHORT-NAME>Other</SHORT-NAME></P></R>").is_ok());
    assert_eq!(keys(&parser), vec!["/Other"]);
    assert_eq!(parser.refs.len(), 0);
    assert!(parser.vendor_mapping.is_none());
    assert!(parser.diagnostics.is_empty());
    assert_eq!(parser.get_ident_node_at(0, 4).unwrap().path, "/Other");
}

#[test]
fn failed_parse_leaves_the_index_empty() {
    let mut parser = indexed("f.arxml", REPARSED);
    assert!(matches!(parser.parse("<R>\n<P>"), Err(ParseError::Malformed(_))));
    assert_eq!(parser.ident_nodes.len(), 0);
    assert_eq!(parser.refs.len(), 0);
    assert!(parser.vendor_mapping.is_none());
    assert!(parser.diagnostics.is_empty());
    assert_eq!(parser.lines.line_count(), 2);
    assert_eq!(parser.file, "f.arxml");
}

#[test]
fn indexing_a_document_starts_from_nothing() {
    let text = "<R><P><SHORT-NAME>A</SHORT-NAME><T DEST=\"K\">/A</T></P></R>";
    let doc = parse_document(text).ok().unwrap();
    let mut parser = indexed("f.arxml", REPARSED);
    parser.index_document(text, &doc);
    parser.index_document(text, &doc);
    assert_eq!(keys(&parser), vec!["/A"]);
    assert_eq!(occurrences(&parser).len(), 1);
    assert_eq!(parser.refs.get("/A").unwrap().len(), 1);
    parser.traverse_xml(&doc);
    assert_eq!(parser.refs.get("/A").unwrap().len(), 2);
}
