use rustype::LineIndex;

#[test]
fn maps_offsets_to_one_based_locations() {
    let index = LineIndex::new("one\ntwo\n");
    assert_eq!(index.line_column(0), (1, 1));
    assert_eq!(index.line_column(4), (2, 1));
}
