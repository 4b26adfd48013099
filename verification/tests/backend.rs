use arxml_language_server::backend::document_symbol::{stretch_of, Position};
use arxml_language_server::backend::goto_definition::{goto_definition, rewrite};
use arxml_language_server::backend::hover::hover;
use arxml_language_server::backend::init::{init, TextDocumentSyncKind};
use arxml_language_server::backend::references::references;
use arxml_language_server::backend::symbol::{symbol, MAX_SYMBOLS};
use arxml_language_server::backend::{
    create_parser_sync, lies_under_root, Action, Backend, ClientConfig, ConfigError, QueryHit,
    ScanResult,
};
use arxml_language_server::xml_parser::{SymbolKind, XmlParser};
use arxml_language_server::xml_tree::ParseError;

fn parsed(file: &str, content: &str) -> XmlParser {
    create_parser_sync(file, true, content).ok().unwrap()
}

fn workspace(files: &[(&str, &str)]) -> Backend {
    let mut backend = Backend::new();
    for (file, content) in files {
        assert!(backend.store(file, Ok(parsed(file, content))).is_ok());
    }
    backend
}

fn cached(backend: &Backend) -> Vec<(String, Vec<String>)> {
    (0..backend.parsers.len())
        .map(|i| {
            let parser = backend.parsers.value_at(i);
            let keys = (0..parser.ident_nodes.len())
                .map(|k| parser.ident_nodes.key_at(k).clone())
                .collect();
            (backend.parsers.key_at(i).clone(), keys)
        })
        .collect()
}

const ALIAS: &str = "<R><M><SHORT-NAME>MICROSAR</SHORT-NAME><REFINED-MODULE-DEF-REF DEST=\"ECUC-MODULE-DEF\">/Vendor/Module</REFINED-MODULE-DEF-REF></M></R>";
const MODULE: &str = "<R><P><SHORT-NAME>Vendor</SHORT-NAME><P><SHORT-NAME>Module</SHORT-NAME><Q><SHORT-NAME>X</SHORT-NAME></Q></P></P></R>";

#[test]
fn reference_is_found_with_file_and_text_span() {
    let content = "<R><P><SHORT-NAME>A</SHORT-NAME>\n<X-REF DEST=\"K\">/A/B</X-REF></P></R>";
    let backend = workspace(&[("dir/f.arxml", content), ("dir/g.arxml", MODULE)]);
    let found = backend.find_references("/A/B");
    assert_eq!(found.len(), 1);
    assert_eq!(found[0].file, "dir/f.arxml");
    assert_eq!(found[0].text_range.start, Position { line: 1, character: 16 });
    assert_eq!(found[0].text_range.end, Position { line: 1, character: 20 });
    assert_eq!(found[0].range.start, Position { line: 1, character: 0 });
    assert_eq!(found[0].range.end, Position { line: 1, character: 28 });
    assert!(backend.find_references("/A").is_empty());
    assert!(backend.find_references("").is_empty());
}

#[test]
fn alias_of_one_file_resolves_definition_in_another() {
    let backend = workspace(&[("f1.arxml", ALIAS), ("f2.arxml", MODULE)]);
    let found = backend.find_definition("/MICROSAR/X");
    assert_eq!(found.len(), 1);
    assert_eq!(found[0].file, "f2.arxml");
    let x = backend.parsers.get("f2.arxml").unwrap().ident_nodes.get("/Vendor/Module/X").unwrap();
    assert_eq!(found[0].range, stretch_of(x.node.start, x.node.end));
    assert_eq!(found[0].selection_range, stretch_of(x.short_name_start, x.short_name_end));
}

#[test]
fn definition_lookup_returns_every_match_once() {
    let backend = workspace(&[
        ("a.arxml", MODULE),
        ("b.arxml", MODULE),
        ("c.arxml", ALIAS),
        ("d.arxml", ALIAS),
    ]);
    let direct = backend.find_definition("/Vendor/Module/X");
    assert_eq!(direct.iter().map(|d| d.file.as_str()).collect::<Vec<_>>(), vec!["a.arxml", "b.arxml"]);
    let aliased = backend.find_definition("/MICROSAR/X");
    assert_eq!(aliased.iter().map(|d| d.file.as_str()).collect::<Vec<_>>(), vec!["a.arxml", "b.arxml"]);
    let own = backend.find_definition("/MICROSAR");
    assert_eq!(
        own.iter().map(|d| d.file.as_str()).collect::<Vec<_>>(),
        vec!["a.arxml", "b.arxml", "c.arxml", "d.arxml"]
    );
    assert!(backend.find_definition("/Nowhere").is_empty());
    assert_eq!(
        backend.candidate_paths("/MICROSAR/X"),
        vec!["/MICROSAR/X".to_string(), "/Vendor/Module/X".to_string()]
    );
    assert_eq!(backend.candidate_paths("/Other"), vec!["/Other".to_string()]);
}

#[test]
fn alias_rewrite_replaces_the_prefix_only() {
    assert_eq!(rewrite("/M/a/M", "/M", "/N/O"), Some("/N/O/a/M".to_string()));
    assert_eq!(rewrite("/M", "/M", "/N"), Some("/N".to_string()));
    assert_eq!(rewrite("/K/M", "/M", "/N"), None);
    assert_eq!(rewrite("/M", "", "/N"), Some("/N/M".to_string()));
}

#[test]
fn references_through_alias_are_found() {
    let user = "<R><P><SHORT-NAME>U</SHORT-NAME><T-REF DEST=\"K\">/Vendor/Module/X</T-REF></P></R>";
    let backend = workspace(&[("f1.arxml", ALIAS), ("u.arxml", user)]);
    let found = backend.find_references("/MICROSAR/X");
    assert_eq!(found.len(), 1);
    assert_eq!(found[0].file, "u.arxml");
}

#[test]
fn goto_definition_links_the_segment_under_the_caret() {
    let user = "<R>\n<P><SHORT-NAME>U</SHORT-NAME><T-REF DEST=\"K\">/Vendor/Module/X</T-REF></P></R>";
    let backend = workspace(&[("m.arxml", MODULE), ("u.arxml", user)]);
    let at = user.lines().nth(1).unwrap().find("/Vendor").unwrap() as u32;
    let links = goto_definition(&backend, "u.arxml", 1, at + 9).unwrap();
    assert_eq!(links.len(), 1);
    assert_eq!(links[0].target_file, "m.arxml");
    let module = backend.parsers.get("m.arxml").unwrap().ident_nodes.get("/Vendor/Module").unwrap();
    assert_eq!(links[0].target_range, stretch_of(module.node.start, module.node.end));
    assert_eq!(
        links[0].target_selection_range,
        stretch_of(module.short_name_start, module.short_name_end)
    );
    assert_eq!(links[0].origin_selection_range.start, Position { line: 1, character: at });
    assert_eq!(links[0].origin_selection_range.end, Position { line: 1, character: at + 14 });
    let whole = goto_definition(&backend, "u.arxml", 1, at + 15).unwrap();
    assert_eq!(whole.len(), 1);
    assert_eq!(whole[0].origin_selection_range.end, Position { line: 1, character: at + 16 });
    assert!(goto_definition(&backend, "u.arxml", 1, 0).is_none());
    assert!(goto_definition(&backend, "none.arxml", 1, at).is_none());
    let first = goto_definition(&backend, "u.arxml", 1, at + 1).unwrap();
    assert_eq!(first.len(), 1);
    assert!(goto_definition(&backend, "u.arxml", 1, at + 1).unwrap()[0].target_file == "m.arxml");
}

#[test]
fn goto_definition_without_target_gives_an_empty_list() {
    let user = "<R><T-REF DEST=\"K\">/No/Such</T-REF></R>";
    let backend = workspace(&[("u.arxml", user)]);
    let at = user.find("/No").unwrap() as u32;
    assert!(goto_definition(&backend, "u.arxml", 0, at + 5).unwrap().is_empty());
}

#[test]
fn references_request_starts_from_the_identifier_under_the_caret() {
    let content = "<R>\n<P><SHORT-NAME>A</SHORT-NAME></P>\n<T-REF DEST=\"K\">/A</T-REF><T-REF DEST=\"K\">/A</T-REF></R>";
    let backend = workspace(&[("f.arxml", content)]);
    let found = references(&backend, "f.arxml", 1, 2).unwrap();
    assert_eq!(found.len(), 2);
    assert_eq!(found[0].range.start, Position { line: 2, character: 0 });
    assert_eq!(found[1].range.start, Position { line: 2, character: 26 });
    assert!(references(&backend, "f.arxml", 0, 0).is_none());
    assert!(references(&backend, "g.arxml", 1, 2).is_none());
}

#[test]
fn hover_text_lists_path_and_references() {
    let def = "<R>\n<P><SHORT-NAME>A</SHORT-NAME></P></R>";
    let user = "<R><Q><SHORT-NAME>U</SHORT-NAME>\n\n<T-REF DEST=\"K\">/A</T-REF></Q></R>";
    let backend = workspace(&[("c:\\ws\\d.arxml", def), ("c:\\ws\\u.arxml", user)]);
    let text = hover(&backend, "c:\\ws\\d.arxml", 1, 1).unwrap();
    assert_eq!(
        text,
        "**PATH:** [/A](file:///c:/ws/d.arxml#2)\n### References\n[/U](file:///c:/ws/u.arxml#3)\n"
    );
    assert!(hover(&backend, "c:\\ws\\d.arxml", 0, 0).is_none());
    assert!(hover(&backend, "x", 0, 0).is_none());
}

#[test]
fn hover_without_references_has_only_the_heading() {
    let def = "<R><P><SHORT-NAME>A</SHORT-NAME></P></R>";
    let backend = workspace(&[("d.arxml", def)]);
    assert_eq!(
        hover(&backend, "d.arxml", 0, 4).unwrap(),
        "**PATH:** [/A](file:///d.arxml#1)\n### References\n"
    );
}

fn many(count: usize) -> String {
    let mut content = String::from("<R>");
    for i in 0..count {
        content.push_str(&format!("<P><SHORT-NAME>Sig{:05}</SHORT-NAME></P>", i));
    }
    content.push_str("</R>");
    content
}

#[test]
fn symbol_search_is_capped_and_empty_query_finds_nothing() {
    let backend = workspace(&[("a.arxml", &many(12000)), ("b.arxml", &many(8000))]);
    assert_eq!(MAX_SYMBOLS, 10000);
    let found = symbol(&backend, "sig");
    assert_eq!(found.len(), 10000);
    assert_eq!(found[0].name, "Sig00000");
    assert_eq!(found[9999].name, "Sig09999");
    assert!(found.iter().all(|s| s.file == "a.arxml"));
    assert_eq!(symbol(&backend, "").len(), 0);
    assert_eq!(symbol(&backend, "Sig0000").len(), 20);
    assert_eq!(symbol(&backend, "ig").len(), 0);
}

#[test]
fn symbol_search_ignores_case_and_reports_the_node() {
    let content = "<R><P><SHORT-NAME>ComSignal</SHORT-NAME><Q><SHORT-NAME>comIPdu</SHORT-NAME></Q></P><P><SHORT-NAME>Other</SHORT-NAME></P></R>";
    let backend = workspace(&[("a.arxml", content)]);
    let found = symbol(&backend, "COM");
    assert_eq!(found.len(), 2);
    assert_eq!(found[0].name, "ComSignal");
    assert_eq!(found[0].container_name, "/ComSignal");
    assert_eq!(found[0].kind, SymbolKind::Object);
    assert_eq!(found[0].file, "a.arxml");
    assert_eq!(found[1].name, "comIPdu");
    assert_eq!(found[1].container_name, "/ComSignal/comIPdu");
    let node = backend.parsers.get("a.arxml").unwrap().ident_nodes.get("/ComSignal").unwrap();
    assert_eq!(found[0].range, stretch_of(node.node.start, node.node.end));
    assert_eq!(symbol(&backend, "ÄX").len(), 0);
}

#[test]
fn scan_results_merge_to_the_same_cache_in_any_order() {
    let texts = [
        ("a.arxml", "<R><P><SHORT-NAME>A</SHORT-NAME></P></R>"),
        ("b.arxml", "<R><P><SHORT-NAME>B</SHORT-NAME></P></R>"),
        ("c.arxml", "<R><P></R>"),
        ("d.arxml", "<R><P><SHORT-NAME>D</SHORT-NAME></P></R>"),
    ];
    let orders: [[usize; 4]; 4] = [[0, 1, 2, 3], [3, 2, 1, 0], [2, 0, 3, 1], [1, 3, 0, 2]];
    let mut seen: Vec<Vec<(String, Vec<String>)>> = Vec::new();
    for order in orders {
        let mut backend = workspace(&[("old.arxml", "<R><P><SHORT-NAME>Old</SHORT-NAME></P></R>")]);
        let results = order
            .iter()
            .map(|&i| ScanResult {
                file: texts[i].0.to_string(),
                outcome: create_parser_sync(texts[i].0, true, texts[i].1),
            })
            .collect();
        let failed = backend.parse_ws(results);
        assert_eq!(failed.len(), 1);
        assert_eq!(failed[0].file, "c.arxml");
        assert!(matches!(failed[0].error, ParseError::Malformed(_)));
        seen.push(cached(&backend));
    }
    assert_eq!(
        seen[0],
        vec![
            ("a.arxml".to_string(), vec!["/A".to_string()]),
            ("b.arxml".to_string(), vec!["/B".to_string()]),
            ("d.arxml".to_string(), vec!["/D".to_string()]),
            ("old.arxml".to_string(), vec!["/Old".to_string()]),
        ]
    );
    assert!(seen.iter().all(|cache| *cache == seen[0]));
}

#[test]
fn scan_failure_drops_the_earlier_index_of_the_file() {
    let mut backend = workspace(&[
        ("a.arxml", "<R><P><SHORT-NAME>A</SHORT-NAME></P></R>"),
        ("b.arxml", "<R><P><SHORT-NAME>B</SHORT-NAME></P></R>"),
    ]);
    let failed = backend.parse_ws(vec![ScanResult {
        file: "a.arxml".to_string(),
        outcome: Err(ParseError::Unreadable("denied".to_string())),
    }]);
    assert_eq!(failed.len(), 1);
    assert_eq!(failed[0].file, "a.arxml");
    assert_eq!(failed[0].error.message(), "denied");
    assert!(!backend.parsers.contains_key("a.arxml"));
    assert!(backend.parsers.contains_key("b.arxml"));
}

#[test]
fn storing_the_same_outcome_twice_changes_nothing() {
    let content = "<R><P><SHORT-NAME>A</SHORT-NAME><T DEST=\"K\">/A</T></P></R>";
    let mut backend = Backend::new();
    assert!(backend.create_parser("a.arxml", Ok(content.to_string())).is_ok());
    let once = cached(&backend);
    assert!(backend.create_parser("a.arxml", Ok(content.to_string())).is_ok());
    assert_eq!(cached(&backend), once);
    assert_eq!(backend.find_references("/A").len(), 1);
}

#[test]
fn failed_update_drops_the_index_and_reports() {
    let mut backend = workspace(&[("a.arxml", "<R><P><SHORT-NAME>A</SHORT-NAME></P></R>")]);
    match backend.create_parser("a.arxml", Ok("<R>".to_string())) {
        Err(ParseError::Malformed(_)) => {}
        _ => panic!("a malformed text was stored"),
    }
    assert!(!backend.parsers.contains_key("a.arxml"));
    let mut backend = workspace(&[("a.arxml", "<R><P><SHORT-NAME>A</SHORT-NAME></P></R>")]);
    match backend.create_parser("a.arxml", Err("no such file".to_string())) {
        Err(ParseError::Unreadable(message)) => assert_eq!(message, "no such file"),
        _ => panic!("an unreadable file was stored"),
    }
    assert!(!backend.parsers.contains_key("a.arxml"));
}

fn configured(folders: &[&str], patterns: &[&str]) -> Backend {
    let mut backend = Backend::new();
    let sync = init(&mut backend, None, Some(folders.iter().map(|f| f.to_string()).collect()));
    assert_eq!(sync, TextDocumentSyncKind::Unreported);
    let patterns: Vec<String> = patterns.iter().map(|p| p.to_string()).collect();
    backend.config = Some(ClientConfig::new(&patterns).ok().unwrap());
    backend
}

#[test]
fn membership_needs_a_root_and_no_ignore_match() {
    let backend = configured(&["/ws/one", "C:\\ws\\two"], &["/generated/", "\\.bak\\.arxml$"]);
    assert!(backend.is_ws_file("/ws/one/a.arxml"));
    assert!(backend.is_ws_file("/ws/one"));
    assert!(backend.is_ws_file("C:\\ws\\two\\sub\\a.arxml"));
    assert!(backend.is_ws_file("C:/ws/two/a.arxml"));
    assert!(!backend.is_ws_file("/ws/onemore/a.arxml"));
    assert!(!backend.is_ws_file("/other/a.arxml"));
    assert!(!backend.is_ws_file("/ws/one/generated/a.arxml"));
    assert!(!backend.is_ws_file("C:\\ws\\two\\generated\\a.arxml"));
    assert!(!backend.is_ws_file("/ws/one/a.bak.arxml"));
    let bare = Backend::new();
    assert!(!bare.is_ws_file("/ws/one/a.arxml"));
    let mut unconfigured = Backend::new();
    init(&mut unconfigured, Some(false), Some(vec!["/ws".to_string()]));
    assert!(unconfigured.is_ws_file("/ws/generated/a.arxml"));
}

#[test]
fn root_prefix_ends_at_a_component() {
    assert!(lies_under_root("/a/b", "/a"));
    assert!(lies_under_root("/a/b", "/a/"));
    assert!(lies_under_root("/a", "/a"));
    assert!(lies_under_root("rel", ""));
    assert!(!lies_under_root("/ab", "/a"));
    assert!(!lies_under_root("/a", "/a/b"));
}

#[test]
fn bad_ignore_pattern_is_refused() {
    match ClientConfig::new(&vec!["(".to_string()]) {
        Err(ConfigError::BadPattern(message)) => assert!(!message.is_empty()),
        Ok(_) => panic!("an unbalanced pattern was accepted"),
    }
    let config = ClientConfig::new(&Vec::new()).ok().unwrap();
    assert!(!config.ignores("/any/path"));
    let config = ClientConfig::new(&vec!["^/a".to_string(), "z$".to_string()]).ok().unwrap();
    assert!(config.ignores("/a/b"));
    assert!(config.ignores("/b/z"));
    assert!(!config.ignores("/b/a"));
}

#[test]
fn init_takes_folders_and_picks_the_sync_kind() {
    let mut backend = Backend::new();
    assert_eq!(init(&mut backend, Some(true), None), TextDocumentSyncKind::Full);
    assert!(backend.ws_folder.is_empty());
    assert_eq!(
        init(&mut backend, Some(false), Some(vec!["/ws".to_string()])),
        TextDocumentSyncKind::Unreported
    );
    assert_eq!(backend.ws_folder, vec!["/ws".to_string()]);
    assert_eq!(init(&mut backend, None, None), TextDocumentSyncKind::Unreported);
    assert_eq!(backend.ws_folder, vec!["/ws".to_string()]);
}

#[test]
fn lifecycle_events_follow_the_policy() {
    let mut backend = configured(&["/ws"], &["ignored"]);
    let text = "<R><P><SHORT-NAME>A</SHORT-NAME></P></R>";
    assert_eq!(backend.did_open("/ws/a.arxml"), Action::ReadAndParse);
    assert!(backend.create_parser("/ws/a.arxml", Ok(text.to_string())).is_ok());
    assert!(backend.create_parser("/tmp/s.arxml", Ok(text.to_string())).is_ok());
    assert!(backend.parsers.get("/ws/a.arxml").unwrap().is_ws_file);
    assert!(!backend.parsers.get("/tmp/s.arxml").unwrap().is_ws_file);
    assert_eq!(backend.did_open("/ws/a.arxml"), Action::Nothing);
    assert_eq!(backend.did_save("/ws/a.arxml"), Action::ReadAndParse);

    assert!(!backend.did_close("/ws/a.arxml"));
    assert!(backend.parsers.contains_key("/ws/a.arxml"));
    assert!(backend.did_close("/tmp/s.arxml"));
    assert!(!backend.parsers.contains_key("/tmp/s.arxml"));
    assert!(!backend.did_close("/tmp/never.arxml"));

    assert_eq!(backend.did_change("/ws/a.arxml", true), Action::ParseText);
    assert!(!backend.parsers.contains_key("/ws/a.arxml"));
    assert_eq!(backend.did_change("/ws/a.arxml", false), Action::ReadAndParse);
    assert_eq!(backend.did_change("/tmp/s.arxml", true), Action::ReadAndParse);
    assert_eq!(backend.did_change("/ws/ignored/a.arxml", true), Action::ReadAndParse);

    assert!(backend.create_parser("/ws/a.arxml", Ok(text.to_string())).is_ok());
    backend.did_delete("/ws/a.arxml");
    assert!(!backend.parsers.contains_key("/ws/a.arxml"));
    backend.did_delete("/ws/a.arxml");
    assert_eq!(backend.parsers.len(), 0);
}

#[test]
fn query_at_prefers_the_reference() {
    let content = "<R><P><SHORT-NAME>A</SHORT-NAME><T DEST=\"K\">/A/B</T></P></R>";
    let backend = workspace(&[("f.arxml", content)]);
    let at = content.find("/A/B").unwrap();
    match backend.query_at("f.arxml", 0, at + 2) {
        QueryHit::Reference { path, caret } => {
            assert_eq!(path, "/A/B");
            assert_eq!(caret, 2);
        }
        _ => panic!("the reference was not found"),
    }
    match backend.query_at("f.arxml", 0, 4) {
        QueryHit::Identifier { path } => assert_eq!(path, "/A"),
        _ => panic!("the identifier was not found"),
    }
    assert!(matches!(backend.query_at("f.arxml", 0, 1), QueryHit::Nothing));
    assert!(matches!(backend.query_at("g.arxml", 0, 4), QueryHit::Nothing));
}

#[test]
fn eligible_files_are_the_members_in_order() {
    let backend = configured(&["/ws"], &["skip"]);
    let found: Vec<String> = ["/ws/b.arxml", "/x/a.arxml", "/ws/skip/c.arxml", "/ws/a.arxml"]
        .iter()
        .map(|f| f.to_string())
        .collect();
    assert_eq!(
        backend.eligible_files(found),
        vec!["/ws/b.arxml".to_string(), "/ws/a.arxml".to_string()]
    );
    assert!(backend.eligible_files(Vec::new()).is_empty());
}

#[test]
fn configuration_without_patterns_is_always_taken() {
    let config = ClientConfig::new(&Vec::new());
    assert!(config.is_ok());
    let mut backend = Backend::new();
    init(&mut backend, None, Some(vec!["/ws".to_string()]));
    backend.config = config.ok();
    assert!(backend.is_ws_file("/ws/any/file.arxml"));
}
