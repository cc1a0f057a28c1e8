use chroma_ls::document::Document;
use chroma_ls::types::{ColorInformation, Position, Range, TextDocumentContentChangeEvent};

fn intensity(v: u8) -> f32 {
    v as f32 / 255.0
}

fn range_change(
    start_line: usize,
    start_character: usize,
    end_line: usize,
    end_character: usize,
    text: &str,
) -> TextDocumentContentChangeEvent {
    TextDocumentContentChangeEvent {
        range: Some(Range {
            start: Position {
                line: start_line,
                character: start_character,
            },
            end: Position {
                line: end_line,
                character: end_character,
            },
        }),
        range_length: None,
        text: text.to_string(),
    }
}

fn full_change(text: &str) -> TextDocumentContentChangeEvent {
    TextDocumentContentChangeEvent {
        range: None,
        range_length: None,
        text: text.to_string(),
    }
}

fn assert_colors_eq(
    colors: Vec<ColorInformation>,
    expected: &[(f32, f32, f32, f32, usize, usize, usize, usize)],
) {
    assert_eq!(colors.len(), expected.len(), "unexpected number of colors");
    for (i, (c, &(r, g, b, a, sl, sc, el, ec))) in colors.iter().zip(expected.iter()).enumerate() {
        assert_eq!(intensity(c.color.red), r, "color[{i}]: red mismatch");
        assert_eq!(intensity(c.color.green), g, "color[{i}]: green mismatch");
        assert_eq!(intensity(c.color.blue), b, "color[{i}]: blue mismatch");
        assert_eq!(intensity(c.color.alpha), a, "color[{i}]: alpha mismatch");

        assert_eq!(c.range.start.line, sl, "color[{i}]: start line mismatch");
        assert_eq!(c.range.start.character, sc, "color[{i}]: start char mismatch");
        assert_eq!(c.range.end.line, el, "color[{i}]: end line mismatch");
        assert_eq!(c.range.end.character, ec, "color[{i}]: end char mismatch");
    }
}

#[test]
fn unicode_edit_in_string() {
    let mut doc = Document::from("a•a");

    doc.edit(&range_change(0, 2, 0, 3, "b"));

    assert_eq!(doc.to_string(), "a•b");
}

#[test]
fn replace_text() {
    let mut doc = Document::from("#FF0000");

    assert_colors_eq(doc.get_colors(), &[(1.0, 0.0, 0.0, 1.0, 0, 0, 0, 7)]);

    doc.edit(&full_change("#00FF00"));
    assert_eq!(doc.to_string(), "#00FF00");

    assert_colors_eq(doc.get_colors(), &[(0.0, 1.0, 0.0, 1.0, 0, 0, 0, 7)]);
}

#[test]
fn append_end() {
    let mut doc = Document::from("#FF0000");

    assert_colors_eq(doc.get_colors(), &[(1.0, 0.0, 0.0, 1.0, 0, 0, 0, 7)]);

    doc.edit(&range_change(0, 7, 1, 0, "\n#00FF00"));
    assert_eq!(doc.to_string(), "#FF0000\n#00FF00");

    assert_colors_eq(
        doc.get_colors(),
        &[
            (1.0, 0.0, 0.0, 1.0, 0, 0, 0, 7),
            (0.0, 1.0, 0.0, 1.0, 1, 0, 1, 7),
        ],
    );
}

#[test]
fn append_middle() {
    let mut doc = Document::from("#FF0000\n#00FF00\n#0000FF");

    assert_colors_eq(
        doc.get_colors(),
        &[
            (1.0, 0.0, 0.0, 1.0, 0, 0, 0, 7),
            (0.0, 1.0, 0.0, 1.0, 1, 0, 1, 7),
            (0.0, 0.0, 1.0, 1.0, 2, 0, 2, 7),
        ],
    );

    doc.edit(&range_change(0, 7, 1, 0, "\n#000000\n"));
    assert_eq!(doc.to_string(), "#FF0000\n#000000\n#00FF00\n#0000FF");

    assert_colors_eq(
        doc.get_colors(),
        &[
            (1.0, 0.0, 0.0, 1.0, 0, 0, 0, 7),
            (0.0, 0.0, 0.0, 1.0, 1, 0, 1, 7),
            (0.0, 1.0, 0.0, 1.0, 2, 0, 2, 7),
            (0.0, 0.0, 1.0, 1.0, 3, 0, 3, 7),
        ],
    );
}

#[test]
fn delete_color_line() {
    let mut doc = Document::from("#FF0000\n#00FF00\n#0000FF");

    assert_colors_eq(
        doc.get_colors(),
        &[
            (1.0, 0.0, 0.0, 1.0, 0, 0, 0, 7),
            (0.0, 1.0, 0.0, 1.0, 1, 0, 1, 7),
            (0.0, 0.0, 1.0, 1.0, 2, 0, 2, 7),
        ],
    );

    // Delete the middle line
    doc.edit(&range_change(1, 0, 2, 0, ""));
    assert_eq!(doc.to_string(), "#FF0000\n#0000FF");

    assert_colors_eq(
        doc.get_colors(),
        &[
            (1.0, 0.0, 0.0, 1.0, 0, 0, 0, 7),
            (0.0, 0.0, 1.0, 1.0, 1, 0, 1, 7),
        ],
    );
}

#[test]
fn delete_one_char() {
    let mut doc = Document::from("#FF0000");

    assert_colors_eq(doc.get_colors(), &[(1.0, 0.0, 0.0, 1.0, 0, 0, 0, 7)]);

    // Delete the last char
    doc.edit(&range_change(0, 6, 0, 7, ""));
    assert_eq!(doc.to_string(), "#FF000");

    assert!(doc.get_colors().is_empty());
}

#[test]
fn replace_partial_line() {
    let mut doc = Document::from("#FF0000");

    assert_colors_eq(doc.get_colors(), &[(1.0, 0.0, 0.0, 1.0, 0, 0, 0, 7)]);

    // Replace last 4 characters "0000" → "00FF"
    doc.edit(&range_change(0, 3, 0, 7, "00FF"));
    assert_eq!(doc.to_string(), "#FF00FF");

    assert_colors_eq(doc.get_colors(), &[(1.0, 0.0, 1.0, 1.0, 0, 0, 0, 7)]);
}

#[test]
fn clear_document_then_add_from() {
    let mut doc = Document::from("#FF0000\n#00FF00");

    assert_colors_eq(
        doc.get_colors(),
        &[
            (1.0, 0.0, 0.0, 1.0, 0, 0, 0, 7),
            (0.0, 1.0, 0.0, 1.0, 1, 0, 1, 7),
        ],
    );

    // Clear all content (simulate full replace)
    doc.edit(&full_change(""));
    assert_eq!(doc.to_string(), "");

    assert!(doc.get_colors().is_empty());

    // Add a new color
    doc.edit(&full_change("#FFFFFF"));
    assert_eq!(doc.to_string(), "#FFFFFF");

    assert_colors_eq(doc.get_colors(), &[(1.0, 1.0, 1.0, 1.0, 0, 0, 0, 7)]);
}

#[test]
fn multiple_incremental_edits() {
    let mut doc = Document::from("#FF0000");

    assert_colors_eq(doc.get_colors(), &[(1.0, 0.0, 0.0, 1.0, 0, 0, 0, 7)]);

    // Append new color
    doc.edit(&range_change(0, 7, 1, 0, "\n#00FF00"));
    assert_eq!(doc.to_string(), "#FF0000\n#00FF00");

    assert_colors_eq(
        doc.get_colors(),
        &[
            (1.0, 0.0, 0.0, 1.0, 0, 0, 0, 7),
            (0.0, 1.0, 0.0, 1.0, 1, 0, 1, 7),
        ],
    );

    // Append another color
    doc.edit(&range_change(1, 7, 2, 0, "\n#0000FF"));
    assert_eq!(doc.to_string(), "#FF0000\n#00FF00\n#0000FF");

    assert_colors_eq(
        doc.get_colors(),
        &[
            (1.0, 0.0, 0.0, 1.0, 0, 0, 0, 7),
            (0.0, 1.0, 0.0, 1.0, 1, 0, 1, 7),
            (0.0, 0.0, 1.0, 1.0, 2, 0, 2, 7),
        ],
    );
}

#[test]
fn load_single_color() {
    let doc = Document::from("#FF0000");
    assert_colors_eq(doc.get_colors(), &[(1.0, 0.0, 0.0, 1.0, 0, 0, 0, 7)]);
}

#[test]
fn full_replace_with_empty_text_clears_colors() {
    let mut doc = Document::from("#123456");
    doc.edit(&full_change(""));
    assert!(doc.get_colors().is_empty());
}

#[test]
fn bullet_line_columns_in_document() {
    let doc = Document::from("•#FF0000");
    let colors = doc.get_colors();
    assert_eq!(colors.len(), 1);
    assert_eq!(colors[0].range.start.character, 1);
    assert_eq!(colors[0].range.end.character, 8);
}

#[test]
fn load_then_join_gives_text_back() {
    for text in ["", "#FF0000", "a\nb", "a\nb\n", "\n\n", "x\n\ny"] {
        let doc = Document::from(text);
        let joined = doc.to_string();
        assert!(joined == text || format!("{joined}\n") == text, "text {:?}", text);
    }
}

#[test]
fn crlf_lines_lose_their_carriage_return() {
    let doc = Document::from("#FF0000\r\n#00FF00\r\n");
    assert_eq!(doc.to_string(), "#FF0000\n#00FF00");
    assert_eq!(doc.get_colors().len(), 2);
}

#[test]
fn incremental_colors_match_reload() {
    let mut doc = Document::from("#FF0000\nplain\n#00FF00 #0000FF");
    let changes = [
        range_change(0, 1, 0, 3, "12"),
        range_change(1, 0, 1, 5, "x #ABCDEF\n\n#FFFFFF"),
        range_change(3, 0, 4, 3, ""),
        range_change(0, 0, 0, 0, "\n\n"),
        range_change(7, 0, 9, 0, "#010203\r\nend"),
        full_change("#aabbcc\n#ddeeff"),
        range_change(1, 3, 1, 3, "•😀\n#1234567"),
    ];
    for change in &changes {
        doc.edit(change);
        let reloaded = Document::from(doc.to_string().as_str());
        assert_eq!(doc.get_colors(), reloaded.get_colors());
    }
}

#[test]
fn inserted_lines_shift_later_colors() {
    let mut doc = Document::from("top\n#FF0000 x #00FF00\n#0000FF");
    let before = doc.get_colors();
    doc.edit(&range_change(0, 3, 0, 3, "\na\nb"));
    let after = doc.get_colors();
    assert_eq!(after.len(), before.len());
    for (b, a) in before.iter().zip(after.iter()) {
        assert_eq!(a.range.start.line, b.range.start.line + 2);
        assert_eq!(a.range.end.line, b.range.end.line + 2);
        assert_eq!(a.range.start.character, b.range.start.character);
        assert_eq!(a.range.end.character, b.range.end.character);
        assert_eq!(a.color, b.color);
    }
}

#[test]
fn deleting_middle_line_renumbers_last() {
    let mut doc = Document::from("#FF0000\n#00FF00\n#0000FF");
    doc.edit(&range_change(1, 0, 2, 0, ""));
    let colors = doc.get_colors();
    assert_eq!(colors.len(), 2);
    assert_eq!(colors[1].range.start.line, 1);
    assert_eq!(colors[1].range.end.line, 1);
    assert_eq!(colors[1].color.blue, 255);
}

#[test]
fn range_past_last_line_pads_document() {
    let mut doc = Document::from("#FF0000");
    doc.edit(&range_change(3, 0, 3, 0, "#00FF00"));
    assert_eq!(doc.to_string(), "#FF0000\n\n\n#00FF00");
    let colors = doc.get_colors();
    assert_eq!(colors.len(), 2);
    assert_eq!(colors[1].range.start.line, 3);
}

#[test]
fn column_past_line_end_is_clamped() {
    let mut doc = Document::from("ab\ncd");
    doc.edit(&range_change(0, 10, 1, 0, "#"));
    assert_eq!(doc.to_string(), "ab#cd");
}

#[test]
fn inserting_newline_splits_line() {
    let mut doc = Document::from("#FF0000#00FF00");
    doc.edit(&range_change(0, 7, 0, 7, "\n"));
    assert_eq!(doc.to_string(), "#FF0000\n#00FF00");
    assert_colors_eq(
        doc.get_colors(),
        &[
            (1.0, 0.0, 0.0, 1.0, 0, 0, 0, 7),
            (0.0, 1.0, 0.0, 1.0, 1, 0, 1, 7),
        ],
    );
}

#[test]
fn empty_document_has_no_lines() {
    let doc = Document::from("");
    assert_eq!(doc.to_string(), "");
    assert!(doc.get_colors().is_empty());
}
