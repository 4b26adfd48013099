use arxml_language_server::path_map::PathMap;
use arxml_language_server::position::{get_line_offsets, LineIndex, TextPos};
use arxml_language_server::text::{
    byte_len, char_len, chars_of, compare_text, joined, count_char, decimal_of, last_segment_of,
    replace_char, split_segments, starts_with, text_after, text_eq, text_of, ByteOrder,
};

#[test]
fn texts_compare_in_byte_order() {
    assert_eq!(compare_text("/A", "/A/B"), ByteOrder::Before);
    assert_eq!(compare_text("/A-B", "/A/B"), ByteOrder::Before);
    assert_eq!(compare_text("/b", "/B"), ByteOrder::After);
    assert_eq!(compare_text("", ""), ByteOrder::Same);
    assert_eq!(compare_text("é", "z"), ByteOrder::After);
    assert!(text_eq("ab", "ab"));
    assert!(!text_eq("ab", "abc"));
    for (a, b) in [("a", "b"), ("ab", "a"), ("x", "x"), ("", "a"), ("ß", "ss")] {
        let want = match a.cmp(b) {
            std::cmp::Ordering::Less => ByteOrder::Before,
            std::cmp::Ordering::Equal => ByteOrder::Same,
            std::cmp::Ordering::Greater => ByteOrder::After,
        };
        assert_eq!(compare_text(a, b), want);
    }
}

#[test]
fn characters_round_trip() {
    let chars = chars_of("aé/z");
    assert_eq!(chars, vec!['a', 'é', '/', 'z']);
    assert_eq!(text_of(&chars, 1, 3), "é/");
    assert_eq!(text_of(&chars, 2, 2), "");
    assert_eq!(char_len("aé/z"), 4);
    assert_eq!(byte_len("aé/z"), 5);
    assert_eq!(text_after("aé/z", 2), "/z");
    assert_eq!(joined("ab", "cd"), "abcd");
}

#[test]
fn prefixes_and_segments() {
    assert!(starts_with("/A/B", "/A"));
    assert!(starts_with("/A", ""));
    assert!(!starts_with("/A", "/A/B"));
    assert!(!starts_with("/B/A", "/A"));
    assert_eq!(last_segment_of("/Defs/Mod/Cont"), "Cont");
    assert_eq!(last_segment_of("Cont"), "Cont");
    assert_eq!(last_segment_of("/a/"), "");
    assert_eq!(last_segment_of(""), "");
    assert_eq!(count_char("/A/B/C", '/'), 3);
    assert_eq!(count_char("", '/'), 0);
    assert_eq!(split_segments("/A//B"), vec!["", "A", "", "B"]);
    assert_eq!(split_segments(""), vec![""]);
    assert_eq!(split_segments("a/"), vec!["a", ""]);
    assert_eq!(replace_char("a\\b\\c", '\\', '/'), "a/b/c");
}

#[test]
fn numbers_are_written_in_decimal() {
    assert_eq!(decimal_of(0), "0");
    assert_eq!(decimal_of(7), "7");
    assert_eq!(decimal_of(10), "10");
    assert_eq!(decimal_of(1234567890), "1234567890");
    assert_eq!(decimal_of(u32::MAX), "4294967295");
}

#[test]
fn line_table_handles_edges() {
    assert_eq!(get_line_offsets("\n"), vec![0, 1]);
    assert_eq!(get_line_offsets("é\nb"), vec![0, 3]);
    let index = LineIndex::build("ab\ncd");
    assert_eq!(index.line_count(), 2);
    assert_eq!(index.offset_to_position(2), TextPos { row: 1, col: 3 });
    assert_eq!(index.offset_to_position(3), TextPos { row: 2, col: 1 });
    assert_eq!(index.offset_to_position(5), TextPos { row: 2, col: 3 });
    assert_eq!(index.offset_to_position(500), TextPos { row: 2, col: 3 });
    assert_eq!(index.position_to_offset(0, 0), Some(0));
    assert_eq!(index.position_to_offset(1, 2), Some(5));
    assert_eq!(index.position_to_offset(1, 3), None);
    assert_eq!(index.position_to_offset(2, 0), None);
    assert_eq!(index.position_to_offset(0, usize::MAX), None);
    let empty = LineIndex::empty();
    assert_eq!(empty.line_count(), 1);
    assert_eq!(empty.offset_to_position(9), TextPos { row: 1, col: 1 });
}

#[test]
fn path_map_keeps_keys_sorted_and_unique() {
    let mut map: PathMap<u32> = PathMap::new();
    assert_eq!(map.insert("/b".to_string(), 1), None);
    assert_eq!(map.insert("/a".to_string(), 2), None);
    assert_eq!(map.insert("/a/c".to_string(), 3), None);
    assert_eq!(map.insert("/b".to_string(), 4), Some(1));
    assert_eq!(map.len(), 3);
    let keys: Vec<&str> = (0..3).map(|i| map.key_at(i).as_str()).collect();
    assert_eq!(keys, vec!["/a", "/a/c", "/b"]);
    assert_eq!(*map.value_at(2), 4);
    assert_eq!(map.get("/a/c"), Some(&3));
    assert_eq!(map.get("/c"), None);
    assert_eq!(map.find("/b"), Some(2));
    assert_eq!(map.find("/"), None);
    assert!(map.contains_key("/a"));
    assert_eq!(map.replace_at(0, 9), 2);
    assert_eq!(map.get("/a"), Some(&9));
    assert_eq!(map.remove("/a/c"), Some(3));
    assert_eq!(map.remove("/a/c"), None);
    assert_eq!(map.len(), 2);
    assert_eq!(map.find("/b"), Some(1));
}
