use languagetool_lsp::source::{InvalidRange, Position, Size, SourceFile};
use languagetool_lsp::util::{utf16_to_byte, RangeExt};

#[test]
fn test_lines() {
    let file = SourceFile::new("Hello\nWorld\n".into());
    let [a, b, c]: [(Size, Size); 3] = file.lines().try_into().unwrap();
    assert_eq!(a.0.byte, 0);
    assert_eq!(a.1.byte, 6);
    assert_eq!(b.0.byte, 6);
    assert_eq!(b.1.byte, 12);
    assert_eq!(c.0.byte, 12);
    assert_eq!(c.1.byte, 12);

    let file = SourceFile::new("Hello\nWorld\nFoo".into());
    let [a, b, c]: [(Size, Size); 3] = file.lines().try_into().unwrap();
    assert_eq!(a.0.byte, 0);
    assert_eq!(a.1.byte, 6);
    assert_eq!(b.0.byte, 6);
    assert_eq!(b.1.byte, 12);
    assert_eq!(c.0.byte, 12);
    assert_eq!(c.1.byte, 15);

    let file = SourceFile::new("Hello\r\nWorld\r\nFoo".into());
    let [a, b, c]: [(Size, Size); 3] = file.lines().try_into().unwrap();
    assert_eq!(a.0.byte, 0);
    assert_eq!(a.1.byte, 7);
    assert_eq!(b.0.byte, 7);
    assert_eq!(b.1.byte, 14);
    assert_eq!(c.0.byte, 14);
    assert_eq!(c.1.byte, 17);

    let file = SourceFile::new("▲\nWorld\n".into());
    let [a, b, c]: [(Size, Size); 3] = file.lines().try_into().unwrap();
    println!("{:?}", &file.text()[a.0.byte..a.1.byte]);
    assert_eq!(a.0.byte, 0);
    assert_eq!(a.1.byte, 4);
    assert_eq!(a.1.utf16, 2);
    assert_eq!(b.0.byte, 4);
    assert_eq!(b.1.byte, 10);
    assert_eq!(b.1.utf16, 8);
    assert_eq!(c.0.byte, 10);
    assert_eq!(c.1.byte, 10);
}

#[test]
fn empty_text_has_one_empty_line() {
    let file = SourceFile::new(String::new());
    assert_eq!(file.lines().len(), 1);
    assert_eq!(file.lines()[0].0, Size::zero());
    assert_eq!(file.lines()[0].1, Size::zero());
}

#[test]
fn size_counts_bytes_and_utf16() {
    let s = Size::new("a😀é");
    assert_eq!(s.byte, 1 + 4 + 2);
    assert_eq!(s.utf16, 1 + 2 + 1);
}

#[test]
fn line_lookup() {
    let file = SourceFile::new("ab\ncd\nef".into());
    assert_eq!(file.line_start(1).unwrap().byte, 3);
    assert_eq!(file.line_end(1).unwrap().byte, 6);
    assert!(file.line_start(3).is_none());
    assert!(file.line_end(3).is_none());
    let (range, text) = file.line_range(1..3).unwrap();
    assert_eq!(range.0.byte, 3);
    assert_eq!(range.1.byte, 8);
    assert_eq!(text, "cd\nef");
    assert!(file.line_range(0..0).is_none());
    assert!(file.line_range(2..1).is_none());
    assert!(file.line_range(0..4).is_none());
}

#[test]
fn position_round_trip_with_surrogate_pairs() {
    let text = "a😀b\nx😀\n";
    let file = SourceFile::new(text.to_string());
    for b in 0..text.len() {
        if text.is_char_boundary(b) {
            let pos = file.to_position(b).unwrap();
            assert_eq!(file.to_offset(pos), Some(b));
        } else {
            assert_eq!(file.to_position(b), None);
        }
    }
    // the emoji takes two UTF-16 units and four bytes
    assert_eq!(file.to_position(5), Some(Position { line: 0, character: 3 }));
    assert_eq!(file.to_offset(Position { line: 1, character: 3 }), Some(12));
}

#[test]
fn position_at_end_and_past_end() {
    let file = SourceFile::new("ab\ncd".into());
    assert_eq!(file.to_position(5), Some(Position { line: 2, character: 2 }));
    assert_eq!(file.to_position(6), None);
    assert_eq!(file.to_position(3), Some(Position { line: 1, character: 0 }));
}

#[test]
fn offset_clamps_column_and_rejects_missing_line() {
    let file = SourceFile::new("ab\ncd".into());
    assert_eq!(file.to_offset(Position { line: 0, character: 10 }), Some(3));
    assert_eq!(file.to_offset(Position { line: 5, character: 0 }), None);
}

#[test]
fn replace_splices_and_rebuilds_lines() {
    let mut file = SourceFile::new("Hello\nWorld".into());
    assert_eq!(file.replace(5..6, " "), Ok(()));
    assert_eq!(file.text(), "Hello World");
    assert_eq!(file.lines().len(), 1);
    assert_eq!(file.replace(0..0, "A\n"), Ok(()));
    assert_eq!(file.text(), "A\nHello World");
    assert_eq!(file.lines().len(), 2);
    assert_eq!(file.lines()[1].0.byte, 2);
}

#[test]
fn replace_rejects_bad_ranges() {
    let mut file = SourceFile::new("é!".into());
    assert_eq!(file.replace(1..2, "x"), Err(InvalidRange));
    assert_eq!(file.replace(2..1, "x"), Err(InvalidRange));
    assert_eq!(file.replace(0..9, "x"), Err(InvalidRange));
    assert_eq!(file.text(), "é!");
    assert_eq!(file.slice(0..2), Some("é"));
    assert_eq!(file.slice(0..1), None);
    assert_eq!(file.len(), 3);
}

#[test]
fn utf16_to_byte_values() {
    let chars: Vec<char> = "a😀b".chars().collect();
    assert_eq!(utf16_to_byte(&chars, 0), 0);
    assert_eq!(utf16_to_byte(&chars, 1), 1);
    // inside the surrogate pair: the whole character is passed
    assert_eq!(utf16_to_byte(&chars, 2), 5);
    assert_eq!(utf16_to_byte(&chars, 3), 5);
    assert_eq!(utf16_to_byte(&chars, 4), 6);
    assert_eq!(utf16_to_byte(&chars, 99), 6);
}

#[test]
fn ranges_touch_at_their_ends() {
    assert!((0..3).touches(&(3..5)));
    assert!((3..5).touches(&(0..3)));
    assert!(!(0..2).touches(&(3..5)));
    assert!((2..2).touches(&(0..5)));
}
