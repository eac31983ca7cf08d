use mecha::parser::parse;
use mecha::position::{byte_index_to_line_col, delta_encode, highlights, semantic_tokens};

#[test]
fn line_and_column_of_offsets() {
    let text = "ab\ncd\n\nxé z";
    assert_eq!(byte_index_to_line_col(text, 0), (0, 0));
    assert_eq!(byte_index_to_line_col(text, 2), (0, 2));
    assert_eq!(byte_index_to_line_col(text, 3), (1, 0));
    assert_eq!(byte_index_to_line_col(text, 7), (3, 0));
    // 'é' takes two bytes but one column
    assert_eq!(byte_index_to_line_col(text, 11), (3, 3));
    // past the end: just after the last character
    assert_eq!(byte_index_to_line_col(text, 100), (3, 4));
}

#[test]
fn highlights_follow_the_schema() {
    let text = "table foo {\n  id: uuid\n}";
    let s = parse("m", text).unwrap();
    let h = highlights(text, &s);
    assert_eq!(h, vec![(0, 6, 3, 0), (1, 2, 2, 1), (1, 6, 4, 2)]);
}

#[test]
fn delta_encoding_is_relative() {
    let v = vec![(0, 6, 3, 0), (1, 2, 2, 1), (1, 6, 4, 2), (4, 1, 1, 0)];
    assert_eq!(delta_encode(&v), vec![(0, 6, 3, 0), (1, 2, 2, 1), (0, 4, 4, 2), (3, 1, 1, 0)]);
}

#[test]
fn semantic_tokens_of_a_schema() {
    let text = "table foo {\n  id: uuid\n}\ntable bar { x: y }";
    let s = parse("m", text).unwrap();
    let t = semantic_tokens(text, &s);
    assert_eq!(
        t,
        vec![(0, 6, 3, 0), (1, 2, 2, 1), (0, 4, 4, 2), (2, 6, 3, 0), (0, 6, 1, 1), (0, 3, 1, 2)]
    );
}
