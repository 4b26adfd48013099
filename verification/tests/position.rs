use arxml_language_server::position::{get_line_offsets, LineIndex, TextPos};

#[test]
fn line_offsets_follow_newlines() {
    assert_eq!(get_line_offsets("ab\ncd\n\nx"), vec![0, 3, 6, 7]);
    assert_eq!(get_line_offsets(""), vec![0]);
}

#[test]
fn offset_maps_to_row_and_column() {
    let index = LineIndex::build("ab\ncd\n\nx");
    assert_eq!(index.offset_to_position(0), TextPos { row: 1, col: 1 });
    assert_eq!(index.offset_to_position(4), TextPos { row: 2, col: 2 });
    assert_eq!(index.offset_to_position(7), TextPos { row: 4, col: 1 });
    assert_eq!(index.position_to_offset(1, 1), Some(4));
    assert_eq!(index.position_to_offset(9, 0), None);
}
