use chroma_ls::text::{text_lines, text_pieces, utf16_to_byte_index};

#[test]
fn byte_index_of_ascii_column() {
    assert_eq!(utf16_to_byte_index("abc", 0), 0);
    assert_eq!(utf16_to_byte_index("abc", 2), 2);
    assert_eq!(utf16_to_byte_index("abc", 3), 3);
}

#[test]
fn byte_index_after_multibyte_character() {
    // '•' is one UTF-16 unit and three UTF-8 bytes.
    assert_eq!(utf16_to_byte_index("a•b", 1), 1);
    assert_eq!(utf16_to_byte_index("a•b", 2), 4);
    assert_eq!(utf16_to_byte_index("a•b", 3), 5);
}

#[test]
fn byte_index_after_surrogate_pair() {
    // '😀' is two UTF-16 units and four UTF-8 bytes.
    assert_eq!(utf16_to_byte_index("😀x", 2), 4);
    assert_eq!(utf16_to_byte_index("😀x", 1), 5);
}

#[test]
fn byte_index_past_end_is_clamped() {
    assert_eq!(utf16_to_byte_index("ab", 10), 2);
    assert_eq!(utf16_to_byte_index("", 0), 0);
}

#[test]
fn lines_follow_std_lines() {
    for text in ["", "a", "a\n", "a\nb", "a\r\nb\r\n", "\n\n", "x\r", "a\rb\nc"] {
        let expected: Vec<String> = text.lines().map(|l| l.to_string()).collect();
        assert_eq!(text_lines(text), expected, "text {:?}", text);
    }
}

#[test]
fn pieces_keep_final_empty_piece() {
    assert_eq!(text_pieces(""), vec![String::new()]);
    assert_eq!(text_pieces("a\n"), vec!["a".to_string(), String::new()]);
    assert_eq!(text_pieces("a\r\nb\r"), vec!["a".to_string(), "b\r".to_string()]);
}
