use arxml_language_server::backend::document_symbol::{
    build_outline, document_symbol, outline_kind_of, stretch_of, OutlineEntry, Position, TextRange,
};
use arxml_language_server::backend::{create_parser_sync, Backend};
use arxml_language_server::position::TextPos;
use arxml_language_server::xml_parser::{SymbolKind, XmlParser};

fn parsed(content: &str) -> XmlParser {
    create_parser_sync("o.arxml", true, content).ok().unwrap()
}

fn names(entries: &[OutlineEntry]) -> Vec<String> {
    entries.iter().map(|e| e.name.clone()).collect()
}

#[test]
fn outline_nests_a_chain_parent_to_child() {
    let parser = parsed("<R><P><SHORT-NAME>A</SHORT-NAME><Q><SHORT-NAME>B</SHORT-NAME><S><SHORT-NAME>C</SHORT-NAME></S></Q></P></R>");
    let roots = build_outline(&parser);
    assert_eq!(names(&roots), vec!["A"]);
    assert_eq!(names(&roots[0].children), vec!["B"]);
    assert_eq!(names(&roots[0].children[0].children), vec!["C"]);
    assert!(roots[0].children[0].children[0].children.is_empty());
}

#[test]
fn outline_keeps_siblings_and_roots_apart() {
    let parser = parsed("<R><P><SHORT-NAME>A</SHORT-NAME><Q><SHORT-NAME>X</SHORT-NAME><Q><SHORT-NAME>Deep</SHORT-NAME></Q></Q><Q><SHORT-NAME>Y</SHORT-NAME></Q></P><P><SHORT-NAME>B</SHORT-NAME><Q><SHORT-NAME>Z</SHORT-NAME></Q></P></R>");
    let roots = build_outline(&parser);
    assert_eq!(names(&roots), vec!["A", "B"]);
    assert_eq!(names(&roots[0].children), vec!["X", "Y"]);
    assert_eq!(names(&roots[0].children[0].children), vec!["Deep"]);
    assert_eq!(names(&roots[1].children), vec!["Z"]);
}

#[test]
fn outline_shows_values_as_leaves_before_nested_entries() {
    let content = "<R><ECUC-CONTAINER-VALUE><SHORT-NAME>C</SHORT-NAME><DEFINITION-REF DEST=\"ECUC-PARAM-CONF-CONTAINER-DEF\">/Defs/Mod/Cont</DEFINITION-REF><PARAMETER-VALUES><ECUC-NUMERICAL-PARAM-VALUE><DEFINITION-REF DEST=\"ECUC-BOOLEAN-PARAM-DEF\">/Defs/Mod/Cont/Flag</DEFINITION-REF><VALUE>1</VALUE></ECUC-NUMERICAL-PARAM-VALUE></PARAMETER-VALUES><SUB-CONTAINERS><ECUC-CONTAINER-VALUE><SHORT-NAME>Sub</SHORT-NAME></ECUC-CONTAINER-VALUE></SUB-CONTAINERS></ECUC-CONTAINER-VALUE></R>";
    let parser = parsed(content);
    let roots = build_outline(&parser);
    assert_eq!(roots.len(), 1);
    let c = &roots[0];
    assert_eq!(c.name, "C");
    assert_eq!(c.detail, "Cont");
    assert_eq!(c.kind, SymbolKind::Struct);
    assert_eq!(names(&c.children), vec!["Flag", "Sub"]);
    let flag = &c.children[0];
    assert_eq!(flag.detail, "= 1");
    assert_eq!(flag.kind, SymbolKind::Boolean);
    assert!(flag.children.is_empty());
    assert_eq!(flag.range, flag.selection_range);
    let sub = &c.children[1];
    assert_eq!(sub.detail, "ECUC-CONTAINER-VALUE");
    assert_eq!(sub.kind, SymbolKind::Struct);
    let ident = parser.ident_nodes.get("/C").unwrap();
    assert_eq!(c.range, stretch_of(ident.node.start, ident.node.end));
    assert_eq!(c.selection_range, stretch_of(ident.short_name_start, ident.short_name_end));
    let at = content.find(">C<").unwrap() as u32 + 1;
    assert_eq!(
        c.selection_range,
        TextRange {
            start: Position { line: 0, character: at },
            end: Position { line: 0, character: at + 1 },
        }
    );
}

#[test]
fn outline_attaches_to_the_entry_opened_last_one_level_up() {
    let parser = parsed("<R><P><SHORT-NAME>A</SHORT-NAME><Q><SHORT-NAME>B</SHORT-NAME></Q></P><P><SHORT-NAME>A-B</SHORT-NAME></P></R>");
    let roots = build_outline(&parser);
    assert_eq!(names(&roots), vec!["A", "A-B"]);
    assert!(roots[0].children.is_empty());
    assert_eq!(names(&roots[1].children), vec!["B"]);
}

#[test]
fn outline_places_a_deep_path_no_deeper_than_one_below() {
    let mut parser = XmlParser::new("o.arxml", true);
    let deep = parsed("<R><P><SHORT-NAME>A</SHORT-NAME><Q><SHORT-NAME>B</SHORT-NAME></Q></P></R>");
    for (key, from) in [("/x/y/z", "/A/B"), ("plain", "/A")] {
        let mut copy = create_parser_sync("o.arxml", true, "<R><P><SHORT-NAME>A</SHORT-NAME><Q><SHORT-NAME>B</SHORT-NAME></Q></P></R>").ok().unwrap();
        let node = copy.ident_nodes.remove(from).unwrap();
        parser.ident_nodes.insert(key.to_string(), node);
    }
    assert_eq!(deep.ident_nodes.len(), 2);
    let roots = build_outline(&parser);
    assert_eq!(names(&roots), vec!["B", "A"]);
    assert!(roots[0].children.is_empty());
}

#[test]
fn outline_kinds_follow_the_tag() {
    let table = [
        ("ECUC-CONTAINER-VALUE", SymbolKind::Struct),
        ("ECUC-PARAM-CONF-CONTAINER-DEF", SymbolKind::Struct),
        ("ECUC-BOOLEAN-PARAM-DEF", SymbolKind::Boolean),
        ("ECUC-ENUMERATION-PARAM-DEF", SymbolKind::Enum),
        ("ECUC-ENUMERATION-LITERAL-DEF", SymbolKind::EnumMember),
        ("ECUC-REFERENCE-DEF", SymbolKind::Variable),
        ("ECUC-SYMBOLIC-NAME-REFERENCE-DEF", SymbolKind::Variable),
        ("ECUC-INTEGER-PARAM-DEF", SymbolKind::Number),
        ("ECUC-STRING-PARAM-DEF", SymbolKind::String),
        ("ECUC-FUNCTION-NAME-DEF", SymbolKind::Function),
        ("AR-PACKAGE", SymbolKind::Object),
        ("", SymbolKind::Object),
    ];
    for (tag, kind) in table {
        assert_eq!(outline_kind_of(tag), kind);
    }
}

#[test]
fn positions_are_counted_from_zero() {
    let range = stretch_of(TextPos { row: 3, col: 7 }, TextPos { row: 0, col: 1 });
    assert_eq!(range.start, Position { line: 2, character: 6 });
    assert_eq!(range.end, Position { line: 0, character: 0 });
}

#[test]
fn document_symbol_answers_for_cached_files_only() {
    let mut backend = Backend::new();
    assert!(document_symbol(&backend, "o.arxml").is_none());
    let parser = parsed("<R><P><SHORT-NAME>A</SHORT-NAME></P></R>");
    assert!(backend.store("o.arxml", Ok(parser)).is_ok());
    let roots = document_symbol(&backend, "o.arxml").unwrap();
    assert_eq!(names(&roots), vec!["A"]);
    assert!(document_symbol(&backend, "other.arxml").is_none());
    let empty = XmlParser::new("e.arxml", false);
    assert!(backend.store("e.arxml", Ok(empty)).is_ok());
    assert!(document_symbol(&backend, "e.arxml").unwrap().is_empty());
}
