use languagetool_lsp::annotated::AnnotatedText;
use languagetool_lsp::plaintext::{annotate, InvalidLine};
use languagetool_lsp::source::SourceFile;

fn parts(a: &AnnotatedText) -> Vec<String> {
    a.parts().iter().map(|p| p.to_string()).collect()
}

#[test]
fn optimize_coalesces_and_trims() {
    let mut a = AnnotatedText::new();
    a.add_text("  \n".to_string());
    a.add_text("Hello ".to_string());
    a.add_text("world.  \n".to_string());
    let cut = a.optimize();
    assert_eq!(cut, 3);
    assert_eq!(parts(&a), vec!["Hello world.".to_string()]);
    assert_eq!(a.len(), 12);
}

#[test]
fn optimize_is_idempotent() {
    let mut a = AnnotatedText::new();
    a.add_text(" x ".to_string());
    a.add_markup("<b>".to_string(), String::new());
    a.add_markup("</b>".to_string(), String::new());
    a.add_text(" ".to_string());
    let first = a.optimize();
    assert_eq!(first, 0);
    let once = parts(&a);
    let second = a.optimize();
    assert_eq!(second, 0);
    assert_eq!(parts(&a), once);
    assert_eq!(once, vec![" x".to_string()]);
}

#[test]
fn optimize_drops_leading_markup_standing_for_nothing() {
    let mut a = AnnotatedText::new();
    a.add_markup("<p>".to_string(), " ".to_string());
    a.add_text("Hi".to_string());
    assert_eq!(a.optimize(), 3);
    assert_eq!(parts(&a), vec!["Hi".to_string()]);
}

#[test]
fn optimize_of_blank_payload_is_empty() {
    let mut a = AnnotatedText::new();
    a.add_text(" \t\n".to_string());
    assert_eq!(a.optimize(), 3);
    assert_eq!(a.len(), 0);
    assert!(a.parts().is_empty());
}

#[test]
fn payload_byte_offsets_follow_utf16() {
    let mut a = AnnotatedText::new();
    a.add_text("é😀".to_string());
    a.add_text("x".to_string());
    assert_eq!(a.byte_offset(1), 2);
    assert_eq!(a.byte_offset(3), 6);
    assert_eq!(a.byte_offset(4), 7);
}

#[test]
fn blank_middle_line_bounds_the_paragraph() {
    let file = SourceFile::new("First line.\n\nThird line.".to_string());
    let (range, annot) = annotate(&file, 0..1).unwrap();
    assert_eq!(range, 0..12);
    assert_eq!(parts(&annot), vec!["First line.\n".to_string()]);
}

#[test]
fn paragraph_extends_over_neighbour_lines() {
    let file = SourceFile::new("a\nb\nc\n\nd".to_string());
    let (range, annot) = annotate(&file, 1..2).unwrap();
    assert_eq!(range, 0..6);
    assert_eq!(parts(&annot), vec!["a\nb\nc\n".to_string()]);
}

#[test]
fn single_blank_line_is_skipped() {
    let file = SourceFile::new("a\n  \nb".to_string());
    let (range, annot) = annotate(&file, 1..2).unwrap();
    assert_eq!(range, 2..5);
    assert!(annot.parts().is_empty());
}

#[test]
fn missing_lines_are_an_error() {
    let file = SourceFile::new("a\nb".to_string());
    assert!(matches!(annotate(&file, 5..6), Err(InvalidLine)));
}
